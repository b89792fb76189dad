//! The scanner: walks a directory tree handed in by the caller and collects
//! every file whose extension is exactly `exe`, tolerating directories whose
//! contents could not be listed.
//!
//! The caller enumerates the directories on disk and hands the result over
//! as an [`FsNode`] tree; a directory it could not list becomes a node
//! marked inaccessible, whose subtree the scan treats as empty. Root
//! directories that do not exist are simply left out of the tree.

use vstd::prelude::*;

use crate::entry::{entries_view, EntryModel, ExecutableEntry};

verus! {

/// A node of a directory tree as the caller found it on disk.
pub enum FsNode {
    /// A plain file: base name (extension included) and absolute path.
    File { name: String, path: String },
    /// A directory and the nodes found inside it. `accessible` is false when
    /// the directory's contents could not be listed; the scan then counts
    /// the subtree for nothing, whatever `entries` holds.
    Dir { accessible: bool, entries: Vec<FsNode> },
}

/// The position of the last `.` in a file name, if any.
pub open spec fn last_dot_spec(name: Seq<char>) -> Option<int>
    decreases name.len(),
{
    if name.len() == 0 {
        Option::None
    } else if name[name.len() - 1] == '.' {
        Option::Some(name.len() - 1)
    } else {
        last_dot_spec(name.drop_last())
    }
}

/// The name's extension equals `exe`, case-sensitively: the extension is
/// what follows the last `.`, and a `.` in first position begins no
/// extension, so a name such as `.exe` has none.
pub open spec fn has_exe_extension_spec(name: Seq<char>) -> bool {
    match last_dot_spec(name) {
        Option::None => false,
        Option::Some(i) => i > 0 && name.subrange(i + 1, name.len() as int) == "exe"@,
    }
}

/// When nothing at or after position `i` is a dot, the last dot lies in the
/// prefix before `i`.
proof fn lemma_last_dot_prefix(name: Seq<char>, i: int)
    requires
        0 <= i <= name.len(),
        forall|j: int| i <= j < name.len() ==> name[j] != '.',
    ensures
        last_dot_spec(name) == last_dot_spec(name.subrange(0, i)),
    decreases name.len() - i,
{
    if i == name.len() {
        assert(name.subrange(0, i) =~= name);
    } else {
        let d = name.drop_last();
        assert(d =~= name.subrange(0, name.len() - 1));
        lemma_last_dot_prefix(d, i);
        assert(d.subrange(0, i) =~= name.subrange(0, i));
    }
}

/// Whether the file name ends in the extension `exe`.
pub fn has_exe_extension(name: &str) -> (r: bool)
    ensures
        r == has_exe_extension_spec(name@),
{
    let n = name.unicode_len();
    let mut i: usize = n;
    while i > 0
        invariant
            i <= n,
            n == name@.len(),
            forall|j: int| i <= j < n ==> name@[j] != '.',
        decreases i,
    {
        if name.get_char(i - 1) == '.' {
            proof {
                lemma_last_dot_prefix(name@, i as int);
                let p = name@.subrange(0, i as int);
                assert(p[p.len() - 1] == name@[i - 1]);
                assert(last_dot_spec(name@) == Option::Some(i - 1));
            }
            if i - 1 == 0 {
                return false;
            }
            if n - i == 3 {
                let c0 = name.get_char(i);
                let c1 = name.get_char(i + 1);
                let c2 = name.get_char(i + 2);
                let r = c0 == 'e' && c1 == 'x' && c2 == 'e';
                proof {
                    reveal_strlit("exe");
                    let suffix = name@.subrange(i as int, n as int);
                    if r {
                        assert(suffix =~= "exe"@);
                    } else {
                        if suffix == "exe"@ {
                            assert(suffix[0] == name@[i as int]);
                            assert(suffix[1] == name@[i + 1]);
                            assert(suffix[2] == name@[i + 2]);
                        }
                    }
                }
                return r;
            } else {
                proof {
                    reveal_strlit("exe");
                    assert(name@.subrange(i as int, n as int).len() == n - i);
                }
                return false;
            }
        }
        i -= 1;
    }
    proof {
        lemma_last_dot_prefix(name@, 0);
        assert(name@.subrange(0, 0) =~= Seq::<char>::empty());
    }
    false
}

/// The entries one node contributes to the scan, in discovery order.
pub open spec fn scan_node_spec(n: FsNode) -> Seq<EntryModel>
    decreases n,
{
    match n {
        FsNode::File { name, path } => if has_exe_extension_spec(name@) {
            seq![EntryModel { name: name@, path: path@ }]
        } else {
            Seq::empty()
        },
        FsNode::Dir { accessible, entries } => if accessible {
            scan_nodes_spec(entries@)
        } else {
            Seq::empty()
        },
    }
}

/// The entries a sequence of sibling nodes contributes, in order.
pub open spec fn scan_nodes_spec(ns: Seq<FsNode>) -> Seq<EntryModel>
    decreases ns,
{
    if ns.len() == 0 {
        Seq::empty()
    } else {
        scan_node_spec(ns[0]) + scan_nodes_spec(ns.drop_first())
    }
}

/// Scanning siblings concatenates what each sibling contributes.
pub proof fn lemma_scan_nodes_concat(a: Seq<FsNode>, b: Seq<FsNode>)
    ensures
        scan_nodes_spec(a + b) == scan_nodes_spec(a) + scan_nodes_spec(b),
    decreases a.len(),
{
    if a.len() == 0 {
        assert(a + b =~= b);
        assert(scan_nodes_spec(a) + scan_nodes_spec(b) =~= scan_nodes_spec(b));
    } else {
        assert((a + b).len() > 0);
        assert((a + b)[0] == a[0]);
        assert((a + b).drop_first() =~= a.drop_first() + b);
        lemma_scan_nodes_concat(a.drop_first(), b);
        assert(scan_node_spec(a[0]) + (scan_nodes_spec(a.drop_first()) + scan_nodes_spec(b))
            =~= (scan_node_spec(a[0]) + scan_nodes_spec(a.drop_first())) + scan_nodes_spec(b));
    }
}

/// One node alone contributes what the node contributes.
pub proof fn lemma_scan_nodes_singleton(n: FsNode)
    ensures
        scan_nodes_spec(seq![n]) == scan_node_spec(n),
{
    let s = seq![n];
    assert(s.drop_first() =~= Seq::<FsNode>::empty());
    assert(scan_nodes_spec(Seq::<FsNode>::empty()) == Seq::<EntryModel>::empty());
    assert(scan_node_spec(n) + Seq::<EntryModel>::empty() =~= scan_node_spec(n));
}

/// Collects into `out` what one node contributes.
fn scan_node_into(node: &FsNode, out: &mut Vec<ExecutableEntry>)
    ensures
        entries_view(final(out)@) == entries_view(old(out)@) + scan_node_spec(*node),
    decreases node,
{
    match node {
        FsNode::File { name, path } => {
            if has_exe_extension(name.as_str()) {
                out.push(ExecutableEntry { name: name.clone(), path: path.clone() });
                proof {
                    assert(entries_view(out@) =~= entries_view(old(out)@) + scan_node_spec(
                        *node));
                }
            } else {
                proof {
                    assert(entries_view(out@) =~= entries_view(old(out)@) + scan_node_spec(
                        *node));
                }
            }
        },
        FsNode::Dir { accessible, entries } => {
            if *accessible {
                scan_nodes_into(entries, out);
            } else {
                proof {
                    assert(entries_view(out@) =~= entries_view(old(out)@) + scan_node_spec(
                        *node));
                }
            }
        },
    }
}

/// Collects into `out` what a sequence of sibling nodes contributes.
fn scan_nodes_into(nodes: &Vec<FsNode>, out: &mut Vec<ExecutableEntry>)
    ensures
        entries_view(final(out)@) == entries_view(old(out)@) + scan_nodes_spec(nodes@),
    decreases nodes@,
{
    proof {
        assert(entries_view(out@) + scan_nodes_spec(nodes@.subrange(0, 0)) =~= entries_view(
            out@));
    }
    let mut i: usize = 0;
    while i < nodes.len()
        invariant
            i <= nodes@.len(),
            entries_view(out@) == entries_view(old(out)@) + scan_nodes_spec(
                nodes@.subrange(0, i as int),
            ),
        decreases nodes@.len() - i,
    {
        scan_node_into(&nodes[i], out);
        proof {
            lemma_scan_nodes_concat(nodes@.subrange(0, i as int), seq![nodes@[i as int]]);
            lemma_scan_nodes_singleton(nodes@[i as int]);
            assert(nodes@.subrange(0, i as int) + seq![nodes@[i as int]] =~= nodes@.subrange(
                0,
                i + 1,
            ));
        }
        i += 1;
    }
    proof {
        assert(nodes@.subrange(0, nodes@.len() as int) =~= nodes@);
    }
}

/// Every file in a tree, at any depth, directories themselves excluded,
/// whether or not an enclosing directory is accessible.
pub open spec fn files_node_spec(n: FsNode) -> Seq<EntryModel>
    decreases n,
{
    match n {
        FsNode::File { name, path } => seq![EntryModel { name: name@, path: path@ }],
        FsNode::Dir { accessible, entries } => files_nodes_spec(entries@),
    }
}

/// Every file under a sequence of sibling nodes, in order.
pub open spec fn files_nodes_spec(ns: Seq<FsNode>) -> Seq<EntryModel>
    decreases ns,
{
    if ns.len() == 0 {
        Seq::empty()
    } else {
        files_node_spec(ns[0]) + files_nodes_spec(ns.drop_first())
    }
}

/// Every directory in the tree could be listed.
pub open spec fn all_accessible_node(n: FsNode) -> bool
    decreases n,
{
    match n {
        FsNode::File { .. } => true,
        FsNode::Dir { accessible, entries } => accessible && all_accessible_nodes(entries@),
    }
}

/// Every directory under each of the sibling nodes could be listed.
pub open spec fn all_accessible_nodes(ns: Seq<FsNode>) -> bool
    decreases ns,
{
    if ns.len() == 0 {
        true
    } else {
        all_accessible_node(ns[0]) && all_accessible_nodes(ns.drop_first())
    }
}

/// The files of a sequence of entries whose extension is exactly `exe`.
pub open spec fn exe_only(s: Seq<EntryModel>) -> Seq<EntryModel> {
    s.filter(|e: EntryModel| has_exe_extension_spec(e.name))
}

/// Over a tree whose directories are all accessible, the scan of one node
/// returns exactly the files with extension `exe`, at any depth,
/// directories themselves excluded, in discovery order.
pub proof fn lemma_scan_is_exe_filter_node(n: FsNode)
    requires
        all_accessible_node(n),
    ensures
        scan_node_spec(n) == exe_only(files_node_spec(n)),
    decreases n,
{
    broadcast use vstd::seq_lib::group_seq_properties;

    match n {
        FsNode::File { name, path } => {
            let e = EntryModel { name: name@, path: path@ };
            let p = |x: EntryModel| has_exe_extension_spec(x.name);
            assert(seq![e].drop_last() =~= Seq::<EntryModel>::empty());
            reveal(Seq::filter);
            assert(Seq::<EntryModel>::empty().filter(p) == Seq::<EntryModel>::empty());
            assert(seq![e].filter(p) == if p(e) {
                Seq::<EntryModel>::empty().push(e)
            } else {
                Seq::<EntryModel>::empty()
            });
            assert(Seq::<EntryModel>::empty().push(e) =~= seq![e]);
        },
        FsNode::Dir { accessible, entries } => {
            lemma_scan_is_exe_filter_nodes(entries@);
        },
    }
}

/// The scan of accessible siblings returns exactly their files with
/// extension `exe`, in order.
pub proof fn lemma_scan_is_exe_filter_nodes(ns: Seq<FsNode>)
    requires
        all_accessible_nodes(ns),
    ensures
        scan_nodes_spec(ns) == exe_only(files_nodes_spec(ns)),
    decreases ns,
{
    let p = |x: EntryModel| has_exe_extension_spec(x.name);
    if ns.len() == 0 {
        reveal(Seq::filter);
        assert(files_nodes_spec(ns) == Seq::<EntryModel>::empty());
    } else {
        lemma_scan_is_exe_filter_node(ns[0]);
        lemma_scan_is_exe_filter_nodes(ns.drop_first());
        Seq::filter_distributes_over_add(
            files_node_spec(ns[0]),
            files_nodes_spec(ns.drop_first()),
            p,
        );
    }
}

/// A directory that could not be listed contributes nothing: the scan of a
/// sibling row with one inaccessible directory equals the scan of the row
/// without it, so entries found in accessible siblings survive.
pub proof fn lemma_scan_skips_inaccessible(
    before: Seq<FsNode>,
    entries: Vec<FsNode>,
    after: Seq<FsNode>,
)
    ensures
        scan_nodes_spec(
            before + seq![FsNode::Dir { accessible: false, entries }] + after,
        ) == scan_nodes_spec(before + after),
{
    let bad = FsNode::Dir { accessible: false, entries };
    lemma_scan_nodes_concat(before + seq![bad], after);
    lemma_scan_nodes_concat(before, seq![bad]);
    lemma_scan_nodes_singleton(bad);
    lemma_scan_nodes_concat(before, after);
    assert(scan_node_spec(bad) == Seq::<EntryModel>::empty());
    assert(scan_nodes_spec(before) + Seq::<EntryModel>::empty() =~= scan_nodes_spec(before));
}

/// Scans the trees under the given roots: returns, in discovery order, one
/// entry for every file whose extension is exactly `exe`, at any depth
/// below an accessible chain of directories.
pub fn scan(roots: &Vec<FsNode>) -> (r: Vec<ExecutableEntry>)
    ensures
        entries_view(r@) == scan_nodes_spec(roots@),
{
    let mut out: Vec<ExecutableEntry> = Vec::new();
    proof {
        assert(entries_view(out@) =~= Seq::<EntryModel>::empty());
    }
    scan_nodes_into(roots, &mut out);
    proof {
        assert(Seq::<EntryModel>::empty() + scan_nodes_spec(roots@) =~= scan_nodes_spec(
            roots@));
    }
    out
}

/// The fixed set of root directories to scan: the platform's primary and
/// secondary program-installation directories, in that order. Callers may
/// substitute their own roots; these are the defaults.
pub fn default_root_directories() -> (roots: Vec<String>)
    ensures
        roots@.len() == 2,
        roots@[0]@ == "C:\\Program Files"@,
        roots@[1]@ == "C:\\Program Files (x86)"@,
{
    let mut roots: Vec<String> = Vec::new();
    roots.push("C:\\Program Files".to_owned());
    roots.push("C:\\Program Files (x86)".to_owned());
    roots
}

} // verus!
