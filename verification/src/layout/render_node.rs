//! Structure roles for tagged PDF output.

use vstd::prelude::*;

verus! {

/// The structure type a rendered node is tagged with. Grouping roles nest
/// child structure elements and own no marked content; `Artifact` is left
/// out of the structure tree entirely.
#[derive(Clone, Copy, PartialEq, Eq, Debug)]
pub enum StructRole {
    Document,
    /// A heading level; levels outside 1-6 are clamped.
    Heading(u8),
    Paragraph,
    Figure,
    Table,
    TableRow,
    TableHeaderCell,
    TableCell,
    List,
    ListItem,
    ListItemLabel,
    ListItemBody,
    Toc,
    TocItem,
    Artifact,
}

/// Whether `role` only nests child structure elements.
pub open spec fn grouping(role: StructRole) -> bool {
    match role {
        StructRole::Document | StructRole::Table | StructRole::TableRow | StructRole::TableHeaderCell
        | StructRole::TableCell | StructRole::List | StructRole::ListItem | StructRole::ListItemLabel
        | StructRole::ListItemBody | StructRole::Toc => true,
        _ => false,
    }
}

/// The PDF standard structure type name of `role`.
pub open spec fn tag_chars(role: StructRole) -> Seq<char> {
    match role {
        StructRole::Document => "Document"@,
        StructRole::Heading(n) => if n <= 1 {
            "H1"@
        } else if n == 2 {
            "H2"@
        } else if n == 3 {
            "H3"@
        } else if n == 4 {
            "H4"@
        } else if n == 5 {
            "H5"@
        } else {
            "H6"@
        },
        StructRole::Paragraph => "P"@,
        StructRole::Figure => "Figure"@,
        StructRole::Table => "Table"@,
        StructRole::TableRow => "TR"@,
        StructRole::TableHeaderCell => "TH"@,
        StructRole::TableCell => "TD"@,
        StructRole::List => "L"@,
        StructRole::ListItem => "LI"@,
        StructRole::ListItemLabel => "Lbl"@,
        StructRole::ListItemBody => "LBody"@,
        StructRole::Toc => "TOC"@,
        StructRole::TocItem => "TOCI"@,
        StructRole::Artifact => "Artifact"@,
    }
}

impl StructRole {
    /// `true` for roles that only nest child structure elements.
    pub fn is_grouping(self) -> (b: bool)
        ensures
            b == grouping(self),
    {
        match self {
            StructRole::Document | StructRole::Table | StructRole::TableRow | StructRole::TableHeaderCell
            | StructRole::TableCell | StructRole::List | StructRole::ListItem | StructRole::ListItemLabel
            | StructRole::ListItemBody | StructRole::Toc => true,
            _ => false,
        }
    }

    /// The PDF structure type name.
    pub fn tag_name(self) -> (s: &'static str)
        ensures
            s@ == tag_chars(self),
    {
        match self {
            StructRole::Document => "Document",
            StructRole::Heading(n) => {
                let level = if n < 1 {
                    1
                } else if n > 6 {
                    6
                } else {
                    n
                };
                if level == 1 {
                    "H1"
                } else if level == 2 {
                    "H2"
                } else if level == 3 {
                    "H3"
                } else if level == 4 {
                    "H4"
                } else if level == 5 {
                    "H5"
                } else {
                    "H6"
                }
            },
            StructRole::Paragraph => "P",
            StructRole::Figure => "Figure",
            StructRole::Table => "Table",
            StructRole::TableRow => "TR",
            StructRole::TableHeaderCell => "TH",
            StructRole::TableCell => "TD",
            StructRole::List => "L",
            StructRole::ListItem => "LI",
            StructRole::ListItemLabel => "Lbl",
            StructRole::ListItemBody => "LBody",
            StructRole::Toc => "TOC",
            StructRole::TocItem => "TOCI",
            StructRole::Artifact => "Artifact",
        }
    }
}

} // verus!
