use geomtree::columns::{class_name, format_datum, u64_to_dec, Col};
use geomtree::model::{Edge, EdgeMetadata, Geom, GeomClass, Graph};
use geomtree::render::{default_columns, emit_header, format_root, render, sorted_roots};
use geomtree::walk::{walk_geom, WalkError};

fn node(class: GeomClass, name: &str, rank: u64) -> Geom {
    Geom { class, name: name.to_string(), rank }
}

fn edge(name: &str, mediasize: u64, metadata: Option<EdgeMetadata>, consumer: usize) -> Edge {
    Edge { name: name.to_string(), mediasize, metadata, consumer_geom: consumer }
}

fn part_meta(type_: &str, label: Option<&str>, rawuuid: Option<&str>) -> EdgeMetadata {
    EdgeMetadata::PART {
        start: 0,
        end: 0,
        index: 1,
        type_: type_.to_string(),
        offset: 0,
        length: 0,
        label: label.map(|s| s.to_string()),
        rawtype: None,
        rawuuid: rawuuid.map(|s| s.to_string()),
        efimedia: None,
    }
}

/// One disk with one partition entry: the single display row carries the
/// edge name and the partition metadata columns.
#[test]
fn scenario_single_partition() {
    let g = Graph {
        nodes: vec![
            node(GeomClass::DISK, "da0", 1),
            node(GeomClass::PART, "da0p1", 2),
            node(GeomClass::DEV, "da0", 2),
        ],
        child_edges: vec![
            vec![edge("da0p1", 1048576, None, 1)],
            vec![edge(
                "da0",
                1048576,
                Some(part_meta("freebsd-ufs", Some("rootfs"), Some("ABCD-1234"))),
                2,
            )],
            vec![],
        ],
    };
    let cols = default_columns();
    let doc = render(&g, &cols).unwrap();
    assert_eq!(doc.header, "NAME\tFSTYPE\tLABEL\tUUID\n");
    assert_eq!(doc.entries.len(), 1);
    assert_eq!(doc.entries[0].row, "da0\t\t\t");
    assert_eq!(doc.entries[0].children.len(), 1);
    assert_eq!(doc.entries[0].children[0].row, "da0\tfreebsd-ufs\trootfs\tABCD-1234");
    assert_eq!(doc.entries[0].children[0].children.len(), 0);
}

/// A cyclic graph must fail with `CycleDetected` naming the repeated node,
/// not hang.
#[test]
fn cyclic_graph_detected() {
    let g = Graph {
        nodes: vec![node(GeomClass::DISK, "da0", 1), node(GeomClass::VFS, "ffs", 2)],
        child_edges: vec![vec![edge("a", 0, None, 1)], vec![edge("b", 0, None, 0)]],
    };
    let cols = default_columns();
    let r = render(&g, &cols);
    assert_eq!(r.err().unwrap(), WalkError::CycleDetected { node: 0 });
}

/// A self-loop is also caught.
#[test]
fn self_loop_detected() {
    let g = Graph {
        nodes: vec![node(GeomClass::DISK, "md0", 1)],
        child_edges: vec![vec![edge("loop", 0, None, 0)]],
    };
    let cols = default_columns();
    let r = render(&g, &cols);
    assert_eq!(r.err().unwrap(), WalkError::CycleDetected { node: 0 });
}

/// A node whose immediate provider is not a PART node is never rendered,
/// whatever its own class: a DEV child of a DISK produces no row.
#[test]
fn dev_under_disk_not_rendered() {
    let g = Graph {
        nodes: vec![node(GeomClass::DISK, "ada0", 1), node(GeomClass::DEV, "ada0", 2)],
        child_edges: vec![vec![edge("ada0", 500, None, 1)], vec![]],
    };
    let cols = default_columns();
    let doc = render(&g, &cols).unwrap();
    assert_eq!(doc.entries.len(), 1);
    assert_eq!(doc.entries[0].children.len(), 0);
}

/// A LABEL node and all of its descendants are never rendered: the subtree
/// root -> PART -> DEV(display) -> LABEL -> DEV yields exactly one row.
#[test]
fn label_subtree_pruned() {
    let g = Graph {
        nodes: vec![
            node(GeomClass::DISK, "ada0", 1),
            node(GeomClass::PART, "ada0", 2),
            node(GeomClass::DEV, "ada0p1", 3),
            node(GeomClass::LABEL, "gpt/x", 4),
            node(GeomClass::DEV, "gpt/x", 5),
        ],
        child_edges: vec![
            vec![edge("ada0", 100, None, 1)],
            vec![edge("ada0p1", 50, None, 2)],
            vec![edge("gpt/x", 50, None, 3)],
            vec![edge("gpt/x", 50, None, 4)],
            vec![],
        ],
    };
    let cols = default_columns();
    let doc = render(&g, &cols).unwrap();
    assert_eq!(doc.entries.len(), 1);
    assert_eq!(doc.entries[0].children.len(), 1);
    assert_eq!(doc.entries[0].children[0].row, "ada0p1\t\t\t");
    assert_eq!(doc.entries[0].children[0].children.len(), 0);
}

/// Transparent intermediate nodes reparent their display descendants to the
/// nearest enclosing display entry: the DEV under the nested PART attaches
/// to the root even though two transparent levels intervene.
#[test]
fn transparent_reparenting() {
    let g = Graph {
        nodes: vec![
            node(GeomClass::DISK, "nvd0", 1),
            node(GeomClass::RAID, "r0", 2),
            node(GeomClass::PART, "r0", 3),
            node(GeomClass::DEV, "r0p1", 4),
        ],
        child_edges: vec![
            vec![edge("r0", 10, None, 1)],
            vec![edge("r0", 10, None, 2)],
            vec![edge("r0p1", 5, None, 3)],
            vec![],
        ],
    };
    let cols = default_columns();
    let doc = render(&g, &cols).unwrap();
    assert_eq!(doc.entries.len(), 1);
    // the DEV row sits directly under the root entry
    assert_eq!(doc.entries[0].children.len(), 1);
    assert_eq!(doc.entries[0].children[0].row, "r0p1\t\t\t");
}

/// Sibling display entries come out sorted by edge name, and reordering the
/// provider's raw edge sequence does not change the rendered document.
#[test]
fn siblings_sorted_and_order_independent() {
    let mk = |edges: Vec<Edge>| Graph {
        nodes: vec![
            node(GeomClass::PART, "table", 1),
            node(GeomClass::DEV, "b", 2),
            node(GeomClass::DEV, "a", 2),
            node(GeomClass::DEV, "c", 2),
        ],
        child_edges: vec![edges, vec![], vec![], vec![]],
    };
    let g1 = mk(vec![edge("b", 2, None, 1), edge("c", 3, None, 3), edge("a", 1, None, 2)]);
    let g2 = mk(vec![edge("a", 1, None, 2), edge("b", 2, None, 1), edge("c", 3, None, 3)]);
    let cols = default_columns();
    let d1 = render(&g1, &cols).unwrap();
    let d2 = render(&g2, &cols).unwrap();
    let rows1: Vec<String> = d1.entries[0].children.iter().map(|e| e.row.clone()).collect();
    let rows2: Vec<String> = d2.entries[0].children.iter().map(|e| e.row.clone()).collect();
    assert_eq!(rows1, vec!["a\t\t\t", "b\t\t\t", "c\t\t\t"]);
    assert_eq!(rows1, rows2);
    assert_eq!(d1.header, d2.header);
}

/// Roots render in name-sorted order, not in index order.
#[test]
fn roots_sorted_by_name() {
    let g = Graph {
        nodes: vec![
            node(GeomClass::DISK, "zzz", 1),
            node(GeomClass::DISK, "aaa", 1),
            node(GeomClass::DEV, "x", 2),
        ],
        child_edges: vec![vec![], vec![], vec![]],
    };
    let roots = sorted_roots(&g);
    assert_eq!(roots, vec![1usize, 0usize]);
    let cols = default_columns();
    let doc = render(&g, &cols).unwrap();
    assert_eq!(doc.entries.len(), 2);
    assert_eq!(doc.entries[0].row, "aaa\t\t\t");
    assert_eq!(doc.entries[1].row, "zzz\t\t\t");
}

/// Column extraction is total: with no variant metadata, FSTYPE, LABEL and
/// UUID all render as empty text; metadata of a non-matching variant does
/// the same.
#[test]
fn extraction_total_without_metadata() {
    let g = Graph { nodes: vec![node(GeomClass::DEV, "d", 1)], child_edges: vec![vec![]] };
    let n = node(GeomClass::DEV, "d", 1);
    let bare = edge("d", 7, None, 0);
    assert_eq!(format_datum(&g, &bare, &n, &Col::FsType), "");
    assert_eq!(format_datum(&g, &bare, &n, &Col::Label), "");
    assert_eq!(format_datum(&g, &bare, &n, &Col::Uuid), "");
    let labelled = edge(
        "d",
        7,
        Some(EdgeMetadata::LABEL { index: 0, offset: 0, length: 7, seclength: 0, secoffset: 0 }),
        0,
    );
    assert_eq!(format_datum(&g, &labelled, &n, &Col::FsType), "");
    assert_eq!(format_datum(&g, &labelled, &n, &Col::Label), "");
    assert_eq!(format_datum(&g, &labelled, &n, &Col::Uuid), "");
    // the partition label may be absent inside a partition-entry payload too
    let partial = edge("d", 7, Some(part_meta("efi", None, None)), 0);
    assert_eq!(format_datum(&g, &partial, &n, &Col::FsType), "efi");
    assert_eq!(format_datum(&g, &partial, &n, &Col::Label), "");
    assert_eq!(format_datum(&g, &partial, &n, &Col::Uuid), "");
}

/// NAME, CLASS, SIZE and MOUNTPOINT extraction rules.
#[test]
fn extraction_name_class_size_mountpoint() {
    let g = Graph { nodes: vec![node(GeomClass::DISK, "ada0", 1)], child_edges: vec![vec![]] };
    let n = node(GeomClass::DISK, "ada0", 1);
    let e = edge("ada0p1", 1048576, None, 0);
    assert_eq!(format_datum(&g, &e, &n, &Col::Name), "ada0p1");
    assert_eq!(format_datum(&g, &e, &n, &Col::Class), "DISK");
    assert_eq!(format_datum(&g, &e, &n, &Col::Size), "1048576");
    assert_eq!(format_datum(&g, &e, &n, &Col::Mountpoint), "");
}

/// Root padding: for a column count of 4 the root label is followed by
/// exactly 3 separator characters, whatever the name's length.
#[test]
fn root_padding() {
    assert_eq!(format_root("da0", 4), "da0\t\t\t");
    assert_eq!(format_root("averylongdevicename", 4), "averylongdevicename\t\t\t");
    assert_eq!(format_root("da0", 1), "da0");
    assert_eq!(format_root("da0", 0), "da0");
    assert_eq!(format_root("", 4), "\t\t\t");
}

/// The header line lists the active column headers, tab-separated.
#[test]
fn header_line() {
    let all = vec![
        Col::Name,
        Col::Class,
        Col::Size,
        Col::FsType,
        Col::Label,
        Col::Mountpoint,
        Col::Uuid,
    ];
    assert_eq!(emit_header(&all), "NAME\tCLASS\tSIZE\tFSTYPE\tLABEL\tMOUNTPOINT\tUUID\n");
    let none: Vec<Col> = vec![];
    assert_eq!(emit_header(&none), "\n");
}

/// Decimal size rendering, including the extremes.
#[test]
fn decimal_rendering() {
    assert_eq!(u64_to_dec(0), "0");
    assert_eq!(u64_to_dec(9), "9");
    assert_eq!(u64_to_dec(10), "10");
    assert_eq!(u64_to_dec(1048576), "1048576");
    assert_eq!(u64_to_dec(u64::MAX), "18446744073709551615");
}

/// Class tags render under their canonical labels.
#[test]
fn class_labels() {
    assert_eq!(class_name(&GeomClass::FD), "FD");
    assert_eq!(class_name(&GeomClass::RAID), "RAID");
    assert_eq!(class_name(&GeomClass::DISK), "DISK");
    assert_eq!(class_name(&GeomClass::DEV), "DEV");
    assert_eq!(class_name(&GeomClass::PART), "PART");
    assert_eq!(class_name(&GeomClass::LABEL), "LABEL");
    assert_eq!(class_name(&GeomClass::VFS), "VFS");
    assert_eq!(class_name(&GeomClass::SWAP), "SWAP");
    assert_eq!(class_name(&GeomClass::Flashmap), "Flashmap");
    assert_eq!(class_name(&GeomClass::MD), "MD");
}

/// A custom column set flows through header and rows alike.
#[test]
fn custom_columns() {
    let g = Graph {
        nodes: vec![
            node(GeomClass::DISK, "da0", 1),
            node(GeomClass::PART, "da0", 2),
            node(GeomClass::DEV, "da0p1", 3),
        ],
        child_edges: vec![
            vec![edge("da0", 1048576, None, 1)],
            vec![edge("da0p1", 524288, None, 2)],
            vec![],
        ],
    };
    let cols = vec![Col::Name, Col::Class, Col::Size];
    let doc = render(&g, &cols).unwrap();
    assert_eq!(doc.header, "NAME\tCLASS\tSIZE\n");
    assert_eq!(doc.entries[0].row, "da0\t\t");
    assert_eq!(doc.entries[0].children[0].row, "da0p1\tDEV\t524288");
}

/// A LABEL root renders no rows at all (its subtree is a dead end), and the
/// walk can be driven directly.
#[test]
fn label_root_walks_empty() {
    let g = Graph {
        nodes: vec![node(GeomClass::LABEL, "gpt/root", 1), node(GeomClass::DEV, "d", 2)],
        child_edges: vec![vec![edge("d", 1, None, 1)], vec![]],
    };
    let cols = default_columns();
    let on_path = vec![true, false];
    let entries = walk_geom(&g, 0, &cols, &on_path).unwrap();
    assert_eq!(entries.len(), 0);
}
