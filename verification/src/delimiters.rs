//! Tokens for array brackets and object braces used during rendering.
use vstd::prelude::*;

use crate::value::ExpandableType;

verus! {

/// The punctuation between the elements shown on one line.
#[derive(Debug, Clone, Copy, PartialEq, Eq, Hash, Structural)]
pub enum SpacingDelimiter {
    Empty,
    Comma,
    Colon,
}

/// The text of a spacing delimiter.
pub open spec fn spacing_text(delimiter: SpacingDelimiter) -> Seq<char> {
    match delimiter {
        SpacingDelimiter::Empty => seq![' '],
        SpacingDelimiter::Comma => seq![',', ' '],
        SpacingDelimiter::Colon => seq![':', ' '],
    }
}

impl SpacingDelimiter {
    /// The text of this delimiter.
    pub fn as_ref(&self) -> (s: &'static str)
        ensures
            s@ == spacing_text(*self),
    {
        match self {
            SpacingDelimiter::Empty => {
                proof {
                    reveal_strlit(" ");
                }
                " "
            },
            SpacingDelimiter::Comma => {
                proof {
                    reveal_strlit(", ");
                }
                ", "
            },
            SpacingDelimiter::Colon => {
                proof {
                    reveal_strlit(": ");
                }
                ": "
            },
        }
    }
}

/// Tokens for array brackets and object braces.
#[derive(Debug, Clone, Copy, PartialEq, Eq, Hash, Structural)]
pub enum ExpandableDelimiter {
    CollapsedArray,
    CollapsedEmptyArray,
    OpeningArray,
    ClosingArray,
    CollapsedObject,
    CollapsedEmptyObject,
    OpeningObject,
    ClosingObject,
}

/// The text of an array bracket or object brace token.
pub open spec fn delimiter_text(delimiter: ExpandableDelimiter) -> Seq<char> {
    match delimiter {
        ExpandableDelimiter::CollapsedArray => seq!['[', '.', '.', '.', ']'],
        ExpandableDelimiter::CollapsedEmptyArray => seq!['[', ']'],
        ExpandableDelimiter::OpeningArray => seq!['['],
        ExpandableDelimiter::ClosingArray => seq![']'],
        ExpandableDelimiter::CollapsedObject => seq!['{', '.', '.', '.', '}'],
        ExpandableDelimiter::CollapsedEmptyObject => seq!['{', '}'],
        ExpandableDelimiter::OpeningObject => seq!['{'],
        ExpandableDelimiter::ClosingObject => seq!['}'],
    }
}

impl ExpandableDelimiter {
    /// The text of this token.
    pub fn as_ref(&self) -> (s: &'static str)
        ensures
            s@ == delimiter_text(*self),
    {
        match self {
            ExpandableDelimiter::CollapsedArray => {
                proof {
                    reveal_strlit("[...]");
                }
                "[...]"
            },
            ExpandableDelimiter::CollapsedEmptyArray => {
                proof {
                    reveal_strlit("[]");
                }
                "[]"
            },
            ExpandableDelimiter::OpeningArray => {
                proof {
                    reveal_strlit("[");
                }
                "["
            },
            ExpandableDelimiter::ClosingArray => {
                proof {
                    reveal_strlit("]");
                }
                "]"
            },
            ExpandableDelimiter::CollapsedObject => {
                proof {
                    reveal_strlit("{...}");
                }
                "{...}"
            },
            ExpandableDelimiter::CollapsedEmptyObject => {
                proof {
                    reveal_strlit("{}");
                }
                "{}"
            },
            ExpandableDelimiter::OpeningObject => {
                proof {
                    reveal_strlit("{");
                }
                "{"
            },
            ExpandableDelimiter::ClosingObject => {
                proof {
                    reveal_strlit("}");
                }
                "}"
            },
        }
    }
}

/// The tokens of one kind of array/object.
#[derive(Debug, Clone, Copy, PartialEq, Eq, Hash, Structural)]
pub struct Delimiters {
    pub collapsed: ExpandableDelimiter,
    pub collapsed_empty: ExpandableDelimiter,
    pub opening: ExpandableDelimiter,
    pub closing: ExpandableDelimiter,
}

/// The tokens of arrays (`ExpandableType::Array`) or objects (`ExpandableType::Object`).
pub open spec fn delimiters_of(expandable_type: ExpandableType) -> Delimiters {
    match expandable_type {
        ExpandableType::Array => Delimiters {
            collapsed: ExpandableDelimiter::CollapsedArray,
            collapsed_empty: ExpandableDelimiter::CollapsedEmptyArray,
            opening: ExpandableDelimiter::OpeningArray,
            closing: ExpandableDelimiter::ClosingArray,
        },
        ExpandableType::Object => Delimiters {
            collapsed: ExpandableDelimiter::CollapsedObject,
            collapsed_empty: ExpandableDelimiter::CollapsedEmptyObject,
            opening: ExpandableDelimiter::OpeningObject,
            closing: ExpandableDelimiter::ClosingObject,
        },
    }
}

impl Delimiters {
    /// The tokens of an array or of an object.
    pub fn of(expandable_type: ExpandableType) -> (res: Delimiters)
        ensures
            res == delimiters_of(expandable_type),
    {
        match expandable_type {
            ExpandableType::Array => Delimiters {
                collapsed: ExpandableDelimiter::CollapsedArray,
                collapsed_empty: ExpandableDelimiter::CollapsedEmptyArray,
                opening: ExpandableDelimiter::OpeningArray,
                closing: ExpandableDelimiter::ClosingArray,
            },
            ExpandableType::Object => Delimiters {
                collapsed: ExpandableDelimiter::CollapsedObject,
                collapsed_empty: ExpandableDelimiter::CollapsedEmptyObject,
                opening: ExpandableDelimiter::OpeningObject,
                closing: ExpandableDelimiter::ClosingObject,
            },
        }
    }
}

} // verus!
