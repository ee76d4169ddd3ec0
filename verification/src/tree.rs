use vstd::prelude::*;
use vstd::string::StrSliceExecFns;
use crate::text::lex_lt;
use crate::text::str_eq;
use crate::vpath::is_doc_name;
use crate::vpath::parent_of;

verus! {

// ---------------------------------------------------------------------------
// The content tree
// ---------------------------------------------------------------------------

/// One filesystem entry inside the content root, as the tree serves it.
pub struct Node {
    /// Display name: the file or directory base name.
    pub name: String,
    /// Canonical virtual path.
    pub path: String,
    /// Files never have children; directories may.
    pub is_dir: bool,
    /// Present only for a directory with at least one entry below it,
    /// ordered by ascending virtual path; absent when there are none.
    pub children: Option<Vec<Node>>,
    /// Present only for a document in which a trusted image was found.
    pub thumbnail: Option<String>,
}

/// One entry as the directory walk reports it to the assembler.
pub struct WalkEntry {
    /// The filesystem path, root included.
    pub path: String,
    /// The display (base) name.
    pub name: String,
    pub is_dir: bool,
    /// The document body, where the file's name asked for one and it could
    /// be read.
    pub content: Option<String>,
}

/// A node before children are attached: no children yet, and a thumbnail
/// only on a markdown document.
pub open spec fn flat_node_ok(n: Node) -> bool {
    &&& n.children is None
    &&& (n.thumbnail is Some ==> !n.is_dir && is_doc_name(n.name@))
}

/// Well-formedness of an assembled subtree: children lists are non-empty,
/// strictly ordered by virtual path, carried only by directories, derive
/// their parent path as the node they sit under, and carry thumbnails only
/// on markdown documents.
pub open spec fn tree_wf(n: Node) -> bool
    decreases n,
{
    match n.children {
        None => true,
        Some(cs) => {
            &&& n.is_dir
            &&& cs@.len() > 0
            &&& (forall|i: int|
                0 <= i < cs@.len() ==> parent_of(#[trigger] cs@[i].path@) == Some(n.path@))
            &&& (forall|i: int|
                0 <= i < cs@.len() - 1 ==> lex_lt(#[trigger] cs@[i].path@, cs@[i + 1].path@))
            &&& (forall|i: int|
                0 <= i < cs@.len() ==> ((#[trigger] cs@[i].thumbnail) is Some ==> !cs@[i].is_dir
                    && is_doc_name(cs@[i].name@)))
            &&& (forall|i: int| 0 <= i < cs@.len() ==> tree_wf(#[trigger] cs@[i]))
        },
    }
}

// ---------------------------------------------------------------------------
// The flat table: virtual path -> node, paths distinct
// ---------------------------------------------------------------------------

pub open spec fn table_ok(t: Seq<Node>) -> bool {
    &&& (forall|i: int, j: int|
        0 <= i < j < t.len() ==> (#[trigger] t[i].path@) != (#[trigger] t[j].path@))
    &&& (forall|i: int| 0 <= i < t.len() ==> flat_node_ok(#[trigger] t[i]))
}

/// The node stored under path `p`, by linear scan.
pub open spec fn table_find(t: Seq<Node>, p: Seq<char>) -> Option<Node>
    decreases t.len(),
{
    if t.len() == 0 {
        None
    } else if t[0].path@ == p {
        Some(t[0])
    } else {
        table_find(t.drop_first(), p)
    }
}

proof fn lemma_table_find_at(t: Seq<Node>, i: int)
    requires
        forall|x: int, y: int|
            0 <= x < y < t.len() ==> (#[trigger] t[x].path@) != (#[trigger] t[y].path@),
        0 <= i < t.len(),
    ensures
        table_find(t, t[i].path@) == Some(t[i]),
    decreases t.len(),
{
    if i > 0 {
        assert(t[0].path@ != t[i].path@);
        lemma_table_find_at(t.drop_first(), i - 1);
        assert(t.drop_first()[i - 1] == t[i]);
    }
}

proof fn lemma_table_find_absent(t: Seq<Node>, p: Seq<char>)
    requires
        forall|i: int| 0 <= i < t.len() ==> (#[trigger] t[i].path@) != p,
    ensures
        table_find(t, p) is None,
    decreases t.len(),
{
    if t.len() > 0 {
        lemma_table_find_absent(t.drop_first(), p);
    }
}

/// Look a node up by its virtual path.
pub(crate) fn find_node(t: &Vec<Node>, path: &str) -> (r: Option<usize>)
    ensures
        match r {
            Some(i) => i < t@.len() && t@[i as int].path@ == path@,
            None => forall|i: int| 0 <= i < t@.len() ==> (#[trigger] t@[i].path@) != path@,
        },
{
    let mut i: usize = 0;
    while i < t.len()
        invariant
            0 <= i <= t@.len(),
            forall|j: int| 0 <= j < i ==> (#[trigger] t@[j].path@) != path@,
        decreases t@.len() - i,
    {
        if str_eq(t[i].path.as_str(), path) {
            return Some(i);
        }
        i += 1;
    }
    None
}

// ---------------------------------------------------------------------------
// The child index: parent virtual path -> ordered member paths
// ---------------------------------------------------------------------------

/// One parent's group of member paths.
pub struct Group {
    pub parent: String,
    pub members: Vec<String>,
}

pub open spec fn group_ok(g: Group) -> bool {
    &&& g.members@.len() > 0
    &&& (forall|i: int|
        0 <= i < g.members@.len() ==> parent_of(#[trigger] g.members@[i]@) == Some(g.parent@))
    &&& (forall|i: int|
        0 <= i < g.members@.len() - 1 ==> lex_lt(#[trigger] g.members@[i]@, g.members@[i + 1]@))
}

pub open spec fn index_ok(gs: Seq<Group>) -> bool {
    &&& (forall|i: int, j: int|
        0 <= i < j < gs.len() ==> (#[trigger] gs[i].parent@) != (#[trigger] gs[j].parent@))
    &&& (forall|i: int| 0 <= i < gs.len() ==> group_ok(#[trigger] gs[i]))
}

/// The member group stored under parent path `p`, by linear scan.
pub open spec fn idx_find(gs: Seq<Group>, p: Seq<char>) -> Option<Seq<String>>
    decreases gs.len(),
{
    if gs.len() == 0 {
        None
    } else if gs[0].parent@ == p {
        Some(gs[0].members@)
    } else {
        idx_find(gs.drop_first(), p)
    }
}

proof fn lemma_idx_find_at(gs: Seq<Group>, i: int)
    requires
        forall|x: int, y: int|
            0 <= x < y < gs.len() ==> (#[trigger] gs[x].parent@) != (#[trigger] gs[y].parent@),
        0 <= i < gs.len(),
    ensures
        idx_find(gs, gs[i].parent@) == Some(gs[i].members@),
    decreases gs.len(),
{
    if i > 0 {
        assert(gs[0].parent@ != gs[i].parent@);
        lemma_idx_find_at(gs.drop_first(), i - 1);
        assert(gs.drop_first()[i - 1] == gs[i]);
    }
}

proof fn lemma_idx_find_absent(gs: Seq<Group>, p: Seq<char>)
    requires
        forall|i: int| 0 <= i < gs.len() ==> (#[trigger] gs[i].parent@) != p,
    ensures
        idx_find(gs, p) is None,
    decreases gs.len(),
{
    if gs.len() > 0 {
        lemma_idx_find_absent(gs.drop_first(), p);
    }
}

/// Look a group up by its parent path.
pub(crate) fn find_group(gs: &Vec<Group>, parent: &str) -> (r: Option<usize>)
    ensures
        match r {
            Some(i) => i < gs@.len() && gs@[i as int].parent@ == parent@,
            None => forall|i: int| 0 <= i < gs@.len() ==> (#[trigger] gs@[i].parent@) != parent@,
        },
{
    let mut i: usize = 0;
    while i < gs.len()
        invariant
            0 <= i <= gs@.len(),
            forall|j: int| 0 <= j < i ==> (#[trigger] gs@[j].parent@) != parent@,
        decreases gs@.len() - i,
    {
        if str_eq(gs[i].parent.as_str(), parent) {
            return Some(i);
        }
        i += 1;
    }
    None
}

// ---------------------------------------------------------------------------
// Attaching children
// ---------------------------------------------------------------------------

/// Of the member paths from position `k` on, those present in the table, in
/// order.
pub open spec fn present_members(ms: Seq<String>, t: Seq<Node>, k: int) -> Seq<Seq<char>>
    decreases ms.len() - k,
{
    if k < 0 || k >= ms.len() {
        Seq::empty()
    } else {
        let rest = present_members(ms, t, k + 1);
        if table_find(t, ms[k]@) is Some {
            seq![ms[k]@] + rest
        } else {
            rest
        }
    }
}

/// Two option strings hold the same text.
pub open spec fn opt_str_eq(a: Option<String>, b: Option<String>) -> bool {
    match (a, b) {
        (Some(x), Some(y)) => x@ == y@,
        (None, None) => true,
        _ => false,
    }
}

/// The tree below `n` is exactly what the flat table `t` and the child index
/// `gs` determine: a directory's children are, in order, the members of its
/// group that the table holds, each carrying its table entry's fields and
/// recursively attached in the same way.
pub open spec fn attached(n: Node, t: Seq<Node>, gs: Seq<Group>) -> bool
    decreases n,
{
    if !n.is_dir {
        n.children is None
    } else {
        match idx_find(gs, n.path@) {
            None => n.children is None,
            Some(ms) => {
                let pm = present_members(ms, t, 0);
                if pm.len() == 0 {
                    n.children is None
                } else {
                    &&& n.children is Some
                    &&& n.children->0@.len() == pm.len()
                    &&& (forall|i: int|
                        #![trigger n.children->0@[i]]
                        0 <= i < pm.len() ==> {
                            let c = n.children->0@[i];
                            let base = table_find(t, pm[i])->Some_0;
                            &&& c.path@ == pm[i]
                            &&& c.name@ == base.name@
                            &&& c.is_dir == base.is_dir
                            &&& opt_str_eq(c.thumbnail, base.thumbnail)
                            &&& attached(c, t, gs)
                        })
                }
            },
        }
    }
}

/// The longest member path length in a group.
pub open spec fn group_max_len(ms: Seq<String>) -> nat
    decreases ms.len(),
{
    if ms.len() == 0 {
        0
    } else {
        let r = group_max_len(ms.drop_last());
        if ms.last()@.len() > r {
            ms.last()@.len()
        } else {
            r
        }
    }
}

/// The longest member path length across the whole index.
pub open spec fn index_max_len(gs: Seq<Group>) -> nat
    decreases gs.len(),
{
    if gs.len() == 0 {
        0
    } else {
        let r = index_max_len(gs.drop_last());
        let l = group_max_len(gs.last().members@);
        if l > r {
            l
        } else {
            r
        }
    }
}

proof fn lemma_group_member_len(ms: Seq<String>, i: int)
    requires
        0 <= i < ms.len(),
    ensures
        ms[i]@.len() <= group_max_len(ms),
    decreases ms.len(),
{
    if i < ms.len() - 1 {
        lemma_group_member_len(ms.drop_last(), i);
    }
}

proof fn lemma_index_member_len(gs: Seq<Group>, g: int, i: int)
    requires
        0 <= g < gs.len(),
        0 <= i < gs[g].members@.len(),
    ensures
        gs[g].members@[i]@.len() <= index_max_len(gs),
    decreases gs.len(),
{
    if g < gs.len() - 1 {
        lemma_index_member_len(gs.drop_last(), g, i);
    } else {
        lemma_group_member_len(gs[g].members@, i);
    }
}

/// In a strictly ordered sequence, every earlier element precedes every
/// later one.
proof fn lemma_sorted_pairwise(ms: Seq<String>, i: int, j: int)
    requires
        forall|k: int| 0 <= k < ms.len() - 1 ==> lex_lt(#[trigger] ms[k]@, ms[k + 1]@),
        0 <= i < j < ms.len(),
    ensures
        lex_lt(ms[i]@, ms[j]@),
    decreases j - i,
{
    if i + 1 < j {
        lemma_sorted_pairwise(ms, i, j - 1);
        crate::text::lemma_lex_trans(ms[i]@, ms[j - 1]@, ms[j]@);
    }
}

/// Copy a flat node.
fn clone_flat(n: &Node) -> (r: Node)
    requires
        n.children is None,
    ensures
        r.name@ == n.name@,
        r.path@ == n.path@,
        r.is_dir == n.is_dir,
        r.children is None,
        opt_str_eq(r.thumbnail, n.thumbnail),
{
    let thumbnail = match &n.thumbnail {
        Some(t) => Some(t.clone()),
        None => None,
    };
    Node {
        name: n.name.clone(),
        path: n.path.clone(),
        is_dir: n.is_dir,
        children: None,
        thumbnail,
    }
}

/// Attach to `node`, recursively, the ordered children that the flat table
/// and the child index determine for it.
#[verifier::rlimit(100)]
pub fn attach_children(node: &mut Node, nodes: &Vec<Node>, by_parent: &Vec<Group>)
    requires
        table_ok(nodes@),
        index_ok(by_parent@),
        old(node).children is None,
    ensures
        final(node).name == old(node).name,
        final(node).path == old(node).path,
        final(node).is_dir == old(node).is_dir,
        final(node).thumbnail == old(node).thumbnail,
        tree_wf(*final(node)),
        attached(*final(node), nodes@, by_parent@),
    decreases
            (if old(node).path@.len() <= index_max_len(by_parent@) {
                index_max_len(by_parent@) + 1 - old(node).path@.len()
            } else {
                0
            }),
{
    if !node.is_dir {
        return ;
    }
    let gi = find_group(by_parent, node.path.as_str());
    match gi {
        None => {
            proof {
                lemma_idx_find_absent(by_parent@, node.path@);
            }
        },
        Some(g) => {
            proof {
                lemma_idx_find_at(by_parent@, g as int);
            }
            let ghost ms_v = by_parent@[g as int].members@;
            let ghost t_v = nodes@;
            let mut children: Vec<Node> = Vec::new();
            let mut k: usize = 0;
            let ghost node0 = *node;
            while k < by_parent[g].members.len()
                invariant
                    table_ok(t_v),
                    index_ok(by_parent@),
                    t_v == nodes@,
                    g < by_parent@.len(),
                    ms_v == by_parent@[g as int].members@,
                    node0 == *old(node),
                    by_parent@[g as int].parent@ == node0.path@,
                    0 <= k <= ms_v.len(),
                    present_members(ms_v, t_v, 0) == children@.map_values(|c: Node| c.path@)
                        + present_members(ms_v, t_v, k as int),
                    forall|i: int|
                        0 <= i < children@.len() ==> {
                            let c = #[trigger] children@[i];
                            let base = table_find(t_v, c.path@)->Some_0;
                            &&& table_find(t_v, c.path@) is Some
                            &&& c.name@ == base.name@
                            &&& c.is_dir == base.is_dir
                            &&& opt_str_eq(c.thumbnail, base.thumbnail)
                            &&& attached(c, t_v, by_parent@)
                            &&& tree_wf(c)
                            &&& parent_of(c.path@) == Some(node0.path@)
                            &&& (c.thumbnail is Some ==> !c.is_dir && is_doc_name(c.name@))
                        },
                    forall|i: int|
                        0 <= i < children@.len() ==> exists|j: int|
                            0 <= j < k && (#[trigger] children@[i].path@) == ms_v[j]@,
                    forall|i: int|
                        0 <= i < children@.len() - 1 ==> lex_lt(
                            #[trigger] children@[i].path@,
                            children@[i + 1].path@,
                        ),
                    children@.len() > 0 ==> exists|j: int|
                        0 <= j < k && children@.last().path@ == ms_v[j]@,
                decreases ms_v.len() - k,
            {
                let member = &by_parent[g].members[k];
                let ni = find_node(nodes, member.as_str());
                proof {
                    assert(ms_v[k as int]@ == member@);
                }
                match ni {
                    Some(ni) => {
                        proof {
                            lemma_table_find_at(t_v, ni as int);
                        }
                        let mut child = clone_flat(&nodes[ni]);
                        proof {
                            lemma_index_member_len(by_parent@, g as int, k as int);
                            crate::vpath::lemma_parent_is_strict_prefix(child.path@);
                        }
                        attach_children(&mut child, nodes, by_parent);
                        proof {
                            if children@.len() > 0 {
                                let jl = choose|j: int|
                                    0 <= j < k && children@.last().path@ == ms_v[j]@;
                                if jl < k {
                                    lemma_sorted_pairwise(ms_v, jl, k as int);
                                }
                            }
                        }
                        children.push(child);
                        proof {
                            assert(present_members(ms_v, t_v, k as int) == seq![ms_v[k as int]@]
                                + present_members(ms_v, t_v, k + 1));
                            assert(children@.map_values(|c: Node| c.path@) =~= children@.drop_last(

                            ).map_values(|c: Node| c.path@) + seq![ms_v[k as int]@]);
                            assert(children@.drop_last().map_values(|c: Node| c.path@) + (seq![
                                ms_v[k as int]@,
                            ] + present_members(ms_v, t_v, k + 1)) =~= (children@.drop_last(

                            ).map_values(|c: Node| c.path@) + seq![ms_v[k as int]@])
                                + present_members(ms_v, t_v, k + 1));
                        }
                    },
                    None => {
                        proof {
                            lemma_table_find_absent(t_v, ms_v[k as int]@);
                            assert(present_members(ms_v, t_v, k as int) == present_members(
                                ms_v,
                                t_v,
                                k + 1,
                            ));
                        }
                    },
                }
                k += 1;
            }
            proof {
                assert(present_members(ms_v, t_v, ms_v.len() as int) =~= Seq::<Seq<char>>::empty());
                assert(present_members(ms_v, t_v, 0) =~= children@.map_values(|c: Node| c.path@));
            }
            if children.len() > 0 {
                proof {
                    assert forall|i: int| 0 <= i < children@.len() implies (#[trigger] children@[i].path@)
                        == present_members(ms_v, t_v, 0)[i] by {
                        assert(children@.map_values(|c: Node| c.path@)[i] == children@[i].path@);
                    }
                }
                node.children = Some(children);
            } else {
                proof {
                    assert(present_members(ms_v, t_v, 0).len() == 0);
                }
            }
        },
    }
}

// ---------------------------------------------------------------------------
// Uniqueness of placement
// ---------------------------------------------------------------------------

/// Does the subtree rooted at `n` hold a node whose path reads `p`?
pub open spec fn in_tree(n: Node, p: Seq<char>) -> bool
    decreases n,
{
    n.path@ == p || (match n.children {
        None => false,
        Some(cs) => exists|i: int| 0 <= i < cs@.len() && in_tree(#[trigger] cs@[i], p),
    })
}

/// Is `q` the path of `p` or of one of the ancestors its derived-parent
/// chain reaches?
pub open spec fn ancestor_of(q: Seq<char>, p: Seq<char>) -> bool
    decreases p.len(),
{
    p == q || (match parent_of(p) {
        None => false,
        Some(r) => if r.len() < p.len() {
            ancestor_of(q, r)
        } else {
            false
        },
    })
}

proof fn lemma_anc_len(q: Seq<char>, p: Seq<char>)
    requires
        ancestor_of(q, p),
    ensures
        q.len() <= p.len(),
    decreases p.len(),
{
    if p != q {
        let r = parent_of(p)->Some_0;
        lemma_anc_len(q, r);
    }
}

proof fn lemma_chain_extend(q: Seq<char>, p: Seq<char>, b: Seq<char>)
    requires
        ancestor_of(q, p),
        parent_of(q) == Some(b),
    ensures
        ancestor_of(b, p),
    decreases p.len(),
{
    if p == q {
        crate::vpath::lemma_parent_is_strict_prefix(q);
        assert(ancestor_of(b, b));
        assert(ancestor_of(b, q));
    } else {
        let r = parent_of(p)->Some_0;
        lemma_chain_extend(q, r, b);
    }
}

proof fn lemma_in_tree_chain(n: Node, p: Seq<char>)
    requires
        tree_wf(n),
        in_tree(n, p),
    ensures
        ancestor_of(n.path@, p),
    decreases n,
{
    if n.path@ != p {
        let cs = n.children->0@;
        let i = choose|i: int| 0 <= i < cs.len() && in_tree(#[trigger] cs[i], p);
        lemma_in_tree_chain(cs[i], p);
        lemma_chain_extend(cs[i].path@, p, n.path@);
    }
}

proof fn lemma_siblings_share_no_descendant(c1: Seq<char>, c2: Seq<char>, b: Seq<char>, p: Seq<
    char,
>)
    requires
        parent_of(c1) == Some(b),
        parent_of(c2) == Some(b),
        c1 != c2,
        ancestor_of(c1, p),
    ensures
        !ancestor_of(c2, p),
    decreases p.len(),
{
    if ancestor_of(c2, p) {
        if p == c1 {
            crate::vpath::lemma_parent_is_strict_prefix(c2);
            let r = parent_of(p)->Some_0;
            lemma_anc_len(c2, r);
        } else if p == c2 {
            crate::vpath::lemma_parent_is_strict_prefix(c1);
            let r = parent_of(p)->Some_0;
            lemma_anc_len(c1, r);
        } else {
            let r = parent_of(p)->Some_0;
            lemma_siblings_share_no_descendant(c1, c2, b, r);
        }
    }
}

proof fn lemma_children_sorted_pairwise(cs: Seq<Node>, i: int, j: int)
    requires
        forall|k: int| 0 <= k < cs.len() - 1 ==> lex_lt(#[trigger] cs[k].path@, cs[k + 1].path@),
        0 <= i < j < cs.len(),
    ensures
        lex_lt(cs[i].path@, cs[j].path@),
    decreases j - i,
{
    if i + 1 < j {
        lemma_children_sorted_pairwise(cs, i, j - 1);
        crate::text::lemma_lex_trans(cs[i].path@, cs[j - 1].path@, cs[j].path@);
    }
}

/// Among the children of any node of a well-formed tree no virtual path
/// repeats: a node stands in its parent's children at most once.
pub proof fn lemma_children_paths_distinct(n: Node, i: int, j: int)
    requires
        tree_wf(n),
        n.children is Some,
        0 <= i < j < n.children->0@.len(),
    ensures
        n.children->0@[i].path@ != n.children->0@[j].path@,
{
    let cs = n.children->0@;
    lemma_children_sorted_pairwise(cs, i, j);
    if cs[i].path@ == cs[j].path@ {
        crate::text::lemma_lex_irrefl(cs[i].path@);
    }
}

/// A virtual path found below one child of a node of a well-formed tree is
/// found below no other child: every path in the tree sits under exactly
/// one parent, the node its derived parent path names.
pub proof fn lemma_child_subtrees_disjoint(n: Node, i: int, j: int, p: Seq<char>)
    requires
        tree_wf(n),
        n.children is Some,
        0 <= i < j < n.children->0@.len(),
        in_tree(n.children->0@[i], p),
    ensures
        !in_tree(n.children->0@[j], p),
{
    let cs = n.children->0@;
    if in_tree(cs[j], p) {
        lemma_in_tree_chain(cs[i], p);
        lemma_in_tree_chain(cs[j], p);
        lemma_children_paths_distinct(n, i, j);
        lemma_siblings_share_no_descendant(cs[i].path@, cs[j].path@, n.path@, p);
    }
}

// ---------------------------------------------------------------------------
// Determinism of assembly
// ---------------------------------------------------------------------------

/// Two trees are structurally identical: the same fields, read as text, and
/// the same children in the same order, recursively.
pub open spec fn same_shape(a: Node, b: Node) -> bool
    decreases a,
{
    &&& a.name@ == b.name@
    &&& a.path@ == b.path@
    &&& a.is_dir == b.is_dir
    &&& opt_str_eq(a.thumbnail, b.thumbnail)
    &&& (a.children is Some <==> b.children is Some)
    &&& (match (a.children, b.children) {
        (Some(x), Some(y)) => x@.len() == y@.len() && (forall|i: int|
            0 <= i < x@.len() ==> same_shape(#[trigger] x@[i], y@[i])),
        _ => true,
    })
}

/// Attachment is deterministic: rebuilding from one flat table and one
/// child index yields structurally identical trees. With one walk of an
/// unchanged content root producing one table and index, repeated assembly
/// answers with the same tree.
pub proof fn lemma_attached_deterministic(n1: Node, n2: Node, t: Seq<Node>, gs: Seq<Group>)
    requires
        attached(n1, t, gs),
        attached(n2, t, gs),
        n1.name@ == n2.name@,
        n1.path@ == n2.path@,
        n1.is_dir == n2.is_dir,
        opt_str_eq(n1.thumbnail, n2.thumbnail),
    ensures
        same_shape(n1, n2),
    decreases n1,
{
    if !n1.is_dir {
        assert(n1.children is None && n2.children is None);
    } else {
        match idx_find(gs, n1.path@) {
            None => {
                assert(n1.children is None && n2.children is None);
            },
            Some(ms) => {
                let pm = present_members(ms, t, 0);
                if pm.len() == 0 {
                    assert(n1.children is None && n2.children is None);
                } else {
                    let x = n1.children->0@;
                    let y = n2.children->0@;
                    assert forall|i: int| 0 <= i < x.len() implies same_shape(
                        #[trigger] x[i],
                        y[i],
                    ) by {
                        lemma_attached_deterministic(x[i], y[i], t, gs);
                    }
                }
            },
        }
    }
}

} // verus!
