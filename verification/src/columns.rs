//! The display columns and their extraction rules.
//!
//! Extraction is total and pure: absent data renders as empty text, never as
//! an error.  Each column's value is pinned down by a spec function over the
//! graph model.

use vstd::prelude::*;

use crate::model::{Edge, EdgeMetadata, Geom, GeomClass, Graph};

verus! {

/// One display column.
#[derive(Clone, Copy, Debug, PartialEq, Eq, Structural)]
pub enum Col {
    Name,
    Class,
    Size,
    FsType,
    Label,
    Mountpoint,
    Uuid,
}

/// The header text of a column.
pub open spec fn col_header(c: Col) -> Seq<char> {
    match c {
        Col::Name => "NAME"@,
        Col::Class => "CLASS"@,
        Col::Size => "SIZE"@,
        Col::FsType => "FSTYPE"@,
        Col::Label => "LABEL"@,
        Col::Mountpoint => "MOUNTPOINT"@,
        Col::Uuid => "UUID"@,
    }
}

/// The canonical label of a node class.
pub open spec fn class_label(c: GeomClass) -> Seq<char> {
    match c {
        GeomClass::FD => "FD"@,
        GeomClass::RAID => "RAID"@,
        GeomClass::DISK => "DISK"@,
        GeomClass::DEV => "DEV"@,
        GeomClass::PART => "PART"@,
        GeomClass::LABEL => "LABEL"@,
        GeomClass::VFS => "VFS"@,
        GeomClass::SWAP => "SWAP"@,
        GeomClass::Flashmap => "Flashmap"@,
        GeomClass::MD => "MD"@,
    }
}

/// The decimal digit character of `d` (0 through 9).
pub open spec fn digit_char(d: int) -> char {
    ((d + 48) as u8) as char
}

/// The decimal rendering of the non-negative integer `n`, most significant
/// digit first, with no leading zeros (except for `n == 0` itself).
pub open spec fn dec_digits(n: int) -> Seq<char>
    recommends
        n >= 0,
    decreases n,
{
    if n < 10 {
        seq![digit_char(n)]
    } else {
        dec_digits(n / 10).push(digit_char(n % 10))
    }
}

/// The text a column shows for one (edge, node) pair:
/// NAME is the edge's display name; CLASS the node's class label; SIZE the
/// edge's media size in decimal; FSTYPE, LABEL and UUID come from the edge's
/// partition-entry metadata when present, and are empty otherwise;
/// MOUNTPOINT is always empty (it would need a mount-table collaborator).
pub open spec fn spec_datum(forest: Graph, edge: Edge, node: Geom, col: Col) -> Seq<char> {
    match col {
        Col::Name => edge.name@,
        Col::Class => class_label(node.class),
        Col::Size => dec_digits(edge.mediasize as int),
        Col::FsType => match edge.metadata {
            Some(EdgeMetadata::PART { type_, .. }) => type_@,
            _ => Seq::empty(),
        },
        Col::Label => match edge.metadata {
            Some(EdgeMetadata::PART { label: Some(l), .. }) => l@,
            _ => Seq::empty(),
        },
        Col::Mountpoint => Seq::empty(),
        Col::Uuid => match edge.metadata {
            Some(EdgeMetadata::PART { rawuuid: Some(u), .. }) => u@,
            _ => Seq::empty(),
        },
    }
}

/// The header text of a column, as a fresh string.
pub fn header(c: &Col) -> (r: String)
    ensures
        r@ == col_header(*c),
{
    match c {
        Col::Name => String::from_str("NAME"),
        Col::Class => String::from_str("CLASS"),
        Col::Size => String::from_str("SIZE"),
        Col::FsType => String::from_str("FSTYPE"),
        Col::Label => String::from_str("LABEL"),
        Col::Mountpoint => String::from_str("MOUNTPOINT"),
        Col::Uuid => String::from_str("UUID"),
    }
}

/// The canonical label of a node class, as a fresh string.
pub fn class_name(c: &GeomClass) -> (r: String)
    ensures
        r@ == class_label(*c),
{
    match c {
        GeomClass::FD => String::from_str("FD"),
        GeomClass::RAID => String::from_str("RAID"),
        GeomClass::DISK => String::from_str("DISK"),
        GeomClass::DEV => String::from_str("DEV"),
        GeomClass::PART => String::from_str("PART"),
        GeomClass::LABEL => String::from_str("LABEL"),
        GeomClass::VFS => String::from_str("VFS"),
        GeomClass::SWAP => String::from_str("SWAP"),
        GeomClass::Flashmap => String::from_str("Flashmap"),
        GeomClass::MD => String::from_str("MD"),
    }
}

/// The one-character string of a single decimal digit.
fn digit_str(d: u64) -> (r: &'static str)
    requires
        d < 10,
    ensures
        r@ =~= seq![digit_char(d as int)],
{
    let r: &'static str = match d {
        0 => "0",
        1 => "1",
        2 => "2",
        3 => "3",
        4 => "4",
        5 => "5",
        6 => "6",
        7 => "7",
        8 => "8",
        _ => "9",
    };
    proof {
        reveal_strlit("0");
        reveal_strlit("1");
        reveal_strlit("2");
        reveal_strlit("3");
        reveal_strlit("4");
        reveal_strlit("5");
        reveal_strlit("6");
        reveal_strlit("7");
        reveal_strlit("8");
        reveal_strlit("9");
    }
    r
}

/// Renders `n` in decimal, most significant digit first.
pub fn u64_to_dec(n: u64) -> (r: String)
    ensures
        r@ == dec_digits(n as int),
    decreases n,
{
    if n < 10 {
        let r = String::from_str(digit_str(n));
        proof {
            assert(r@ =~= dec_digits(n as int));
        }
        r
    } else {
        let mut r = u64_to_dec(n / 10);
        r.append(digit_str(n % 10));
        proof {
            assert(r@ =~= dec_digits(n as int));
        }
        r
    }
}

/// Extracts one column's text for an (edge, node) pair; total over the
/// column enum, pure, never fails.
pub fn format_datum(forest: &Graph, edge: &Edge, node: &Geom, col: &Col) -> (r: String)
    ensures
        r@ == spec_datum(*forest, *edge, *node, *col),
{
    match col {
        Col::Name => edge.name.clone(),
        Col::Class => class_name(&node.class),
        Col::Size => u64_to_dec(edge.mediasize),
        Col::FsType => match &edge.metadata {
            Some(EdgeMetadata::PART { type_, .. }) => type_.clone(),
            _ => String::new(),
        },
        Col::Label => match &edge.metadata {
            Some(EdgeMetadata::PART { label: Some(l), .. }) => l.clone(),
            _ => String::new(),
        },
        Col::Mountpoint => String::new(),
        Col::Uuid => match &edge.metadata {
            Some(EdgeMetadata::PART { rawuuid: Some(u), .. }) => u.clone(),
            _ => String::new(),
        },
    }
}

} // verus!
