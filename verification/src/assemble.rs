use vstd::prelude::*;
use vstd::pervasive::VecAdditionalExecFns;
use crate::text::lex_lt;
use crate::text::str_lt;
use crate::thumb::extract_first_image;
use crate::tree::attach_children;
use crate::tree::find_group;
use crate::tree::find_node;
use crate::tree::attached;
use crate::tree::flat_node_ok;
use crate::tree::group_ok;
use crate::tree::index_ok;
use crate::tree::table_ok;
use crate::tree::tree_wf;
use crate::tree::Group;
use crate::tree::Node;
use crate::tree::WalkEntry;
use crate::vpath::norm_of;
use crate::vpath::normalize_path;
use crate::vpath::parent_of;
use crate::vpath::parent_path;
use crate::vpath::root_vpath;
use crate::vpath::wants_content;

verus! {

// ---------------------------------------------------------------------------
// Building the flat table and the child index
// ---------------------------------------------------------------------------

/// Some entry of `t` stands under the path `v`.
pub open spec fn table_has_path(t: Seq<Node>, v: Seq<char>) -> bool {
    exists|i: int| 0 <= i < t.len() && (#[trigger] t[i].path)@ == v
}

/// Put `node` into the table, replacing any entry already under its path.
fn table_insert(t: &mut Vec<Node>, node: Node)
    requires
        table_ok(old(t)@),
        flat_node_ok(node),
    ensures
        table_ok(final(t)@),
        forall|v: Seq<char>|
            #[trigger] table_has_path(final(t)@, v) <==> (table_has_path(old(t)@, v) || v
                == node.path@),
{
    let ghost p = node.path@;
    let r = find_node(t, node.path.as_str());
    match r {
        Some(i) => {
            t.set(i, node);
            proof {
                assert forall|v: Seq<char>| #[trigger] table_has_path(t@, v) implies (
                table_has_path(old(t)@, v) || v == p) by {
                    let x = choose|x: int| 0 <= x < t@.len() && (#[trigger] t@[x].path)@ == v;
                    if x != i {
                        assert(old(t)@[x].path@ == v);
                    }
                }
                assert forall|v: Seq<char>| table_has_path(old(t)@, v) || v == p implies
                    #[trigger] table_has_path(t@, v) by {
                    if v == p {
                        assert(t@[i as int].path@ == v);
                    } else {
                        let x = choose|x: int|
                            0 <= x < old(t)@.len() && (#[trigger] old(t)@[x].path)@ == v;
                        assert(x != i);
                        assert(t@[x].path@ == v);
                    }
                }
            }
        },
        None => {
            t.push(node);
            proof {
                assert forall|v: Seq<char>| #[trigger] table_has_path(t@, v) implies (
                table_has_path(old(t)@, v) || v == p) by {
                    let x = choose|x: int| 0 <= x < t@.len() && (#[trigger] t@[x].path)@ == v;
                    if x < old(t)@.len() {
                        assert(old(t)@[x].path@ == v);
                    }
                }
                assert forall|v: Seq<char>| table_has_path(old(t)@, v) || v == p implies
                    #[trigger] table_has_path(t@, v) by {
                    if v == p {
                        assert(t@[t@.len() - 1].path@ == v);
                    } else {
                        let x = choose|x: int|
                            0 <= x < old(t)@.len() && (#[trigger] old(t)@[x].path)@ == v;
                        assert(t@[x].path@ == v);
                    }
                }
            }
        },
    }
}

/// Some group of `gs` holds a member whose path reads `v`.
pub open spec fn member_view_in(gs: Seq<Group>, v: Seq<char>) -> bool {
    exists|g: int, m: int|
        0 <= g < gs.len() && 0 <= m < (#[trigger] gs[g].members)@.len() && (#[trigger] gs[g].members@[m])@
            == v
}

/// Record `member` under `parent`, keeping each group's members in strictly
/// ascending path order.
fn add_member(gs: &mut Vec<Group>, parent: String, member: String)
    requires
        index_ok(old(gs)@),
        parent_of(member@) == Some(parent@),
        !member_view_in(old(gs)@, member@),
    ensures
        index_ok(final(gs)@),
        forall|v: Seq<char>|
            #[trigger] member_view_in(final(gs)@, v) ==> member_view_in(old(gs)@, v) || v
                == member@,
        member_view_in(final(gs)@, member@),
        forall|v: Seq<char>|
            #[trigger] member_view_in(old(gs)@, v) ==> member_view_in(final(gs)@, v),
{
    let ghost mv = member@;
    let r = find_group(gs, parent.as_str());
    match r {
        None => {
            let mut members: Vec<String> = Vec::new();
            members.push(member);
            let grp = Group { parent, members };
            gs.push(grp);
            proof {
                assert(group_ok(final(gs)@.last()));
                assert forall|v: Seq<char>| #[trigger] member_view_in(final(gs)@, v) implies
                    member_view_in(old(gs)@, v) || v == member@ by {
                    let (g, m): (int, int) = choose|g: int, m: int|
                        0 <= g < final(gs)@.len() && 0 <= m
                            < (#[trigger] final(gs)@[g].members)@.len() && (
                        #[trigger] final(gs)@[g].members@[m])@ == v;
                    if g < old(gs)@.len() {
                        assert(member_view_in(old(gs)@, v));
                    }
                }
                assert(final(gs)@[final(gs)@.len() - 1].members@[0]@ == mv);
                assert(member_view_in(final(gs)@, mv));
                assert forall|v: Seq<char>| #[trigger] member_view_in(old(gs)@, v) implies
                    member_view_in(final(gs)@, v) by {
                    let (g, m): (int, int) = choose|g: int, m: int|
                        0 <= g < old(gs)@.len() && 0 <= m
                            < (#[trigger] old(gs)@[g].members)@.len() && (
                        #[trigger] old(gs)@[g].members@[m])@ == v;
                    assert(final(gs)@[g].members@[m]@ == v);
                }
            }
        },
        Some(gi) => {
            let mut grp = gs.remove(gi);
            let ghost gs1 = gs@;
            let ghost oldms = grp.members@;
            let mut j: usize = 0;
            while j < grp.members.len() && str_lt(grp.members[j].as_str(), member.as_str())
                invariant
                    oldms == grp.members@,
                    0 <= j <= oldms.len(),
                    forall|x: int| 0 <= x < j ==> lex_lt((#[trigger] oldms[x])@, member@),
                decreases oldms.len() - j,
            {
                j += 1;
            }
            proof {
                if j < oldms.len() {
                    assert(!lex_lt(oldms[j as int]@, member@));
                    assert(oldms[j as int]@ != member@) by {
                        assert(old(gs)@[gi as int].members@[j as int]@ == oldms[j as int]@);
                    }
                    if !lex_lt(member@, oldms[j as int]@) {
                        crate::text::lemma_lex_connected(member@, oldms[j as int]@);
                    }
                    assert(lex_lt(member@, oldms[j as int]@));
                }
            }
            grp.members.insert(j, member);
            proof {
                assert(group_ok(grp)) by {
                    assert(group_ok(old(gs)@[gi as int]));
                    let ms = grp.members@;
                    assert forall|i: int| 0 <= i < ms.len() implies parent_of(
                        (#[trigger] ms[i])@,
                    ) == Some(grp.parent@) by {
                        if i < j {
                            assert(ms[i] == oldms[i]);
                        } else if i > j {
                            assert(ms[i] == oldms[i - 1]);
                        }
                    }
                    assert forall|i: int| 0 <= i < ms.len() - 1 implies lex_lt(
                        (#[trigger] ms[i])@,
                        ms[i + 1]@,
                    ) by {
                        if i + 1 < j {
                            assert(ms[i] == oldms[i] && ms[i + 1] == oldms[i + 1]);
                        } else if i + 1 == j {
                            assert(ms[i] == oldms[i]);
                        } else if i == j {
                            assert(ms[i + 1] == oldms[i]);
                        } else {
                            assert(ms[i] == oldms[i - 1] && ms[i + 1] == oldms[i]);
                        }
                    }
                }
            }
            gs.push(grp);
            proof {
                assert forall|x: int, y: int|
                    0 <= x < y < final(gs)@.len() implies (#[trigger] final(gs)@[x].parent@) != (
                #[trigger] final(gs)@[y].parent@) by {
                    let n0 = old(gs)@.len();
                    if y < n0 - 1 {
                        if x < gi && y < gi {
                        } else if x < gi {
                            assert(gs1[y] == old(gs)@[y + 1]);
                        } else {
                            assert(gs1[x] == old(gs)@[x + 1]);
                            assert(gs1[y] == old(gs)@[y + 1]);
                        }
                    } else {
                        assert(final(gs)@[y].parent@ == old(gs)@[gi as int].parent@);
                        if x < gi {
                            assert(gs1[x] == old(gs)@[x]);
                        } else {
                            assert(gs1[x] == old(gs)@[x + 1]);
                        }
                    }
                }
                assert forall|g: int| 0 <= g < final(gs)@.len() implies group_ok(
                    #[trigger] final(gs)@[g],
                ) by {
                    if g < final(gs)@.len() - 1 {
                        if g < gi {
                            assert(gs1[g] == old(gs)@[g]);
                        } else {
                            assert(gs1[g] == old(gs)@[g + 1]);
                        }
                    }
                }
                assert forall|v: Seq<char>| #[trigger] member_view_in(final(gs)@, v) implies
                    member_view_in(old(gs)@, v) || v == member@ by {
                    let (g, m): (int, int) = choose|g: int, m: int|
                        0 <= g < final(gs)@.len() && 0 <= m
                            < (#[trigger] final(gs)@[g].members)@.len() && (
                        #[trigger] final(gs)@[g].members@[m])@ == v;
                    if g < final(gs)@.len() - 1 {
                        if g < gi {
                            assert(gs1[g] == old(gs)@[g]);
                            assert(old(gs)@[g].members@[m]@ == v);
                        } else {
                            assert(gs1[g] == old(gs)@[g + 1]);
                            assert(old(gs)@[g + 1].members@[m]@ == v);
                        }
                    } else {
                        if v != member@ {
                            if m < j {
                                assert(old(gs)@[gi as int].members@[m]@ == v);
                            } else {
                                assert(grp.members@[m] == oldms[m - 1]);
                                assert(old(gs)@[gi as int].members@[m - 1]@ == v);
                            }
                        }
                    }
                }
                assert(final(gs)@[final(gs)@.len() - 1].members@[j as int]@ == mv);
                assert(member_view_in(final(gs)@, mv));
                assert forall|v: Seq<char>| #[trigger] member_view_in(old(gs)@, v) implies
                    member_view_in(final(gs)@, v) by {
                    let (g, m): (int, int) = choose|g: int, m: int|
                        0 <= g < old(gs)@.len() && 0 <= m
                            < (#[trigger] old(gs)@[g].members)@.len() && (
                        #[trigger] old(gs)@[g].members@[m])@ == v;
                    if g < gi {
                        assert(final(gs)@[g].members@[m]@ == v);
                    } else if g > gi {
                        assert(gs1[g - 1] == old(gs)@[g]);
                        assert(final(gs)@[g - 1].members@[m]@ == v);
                    } else {
                        let last = final(gs)@.len() - 1;
                        if m < j {
                            assert(final(gs)@[last].members@[m]@ == v);
                        } else {
                            assert(grp.members@[m + 1] == oldms[m]);
                            assert(final(gs)@[last].members@[m + 1]@ == v);
                        }
                    }
                }
            }
        },
    }
}

// ---------------------------------------------------------------------------
// Assembling the tree
// ---------------------------------------------------------------------------

/// Some entry of the walk normalizes to the virtual path `v`.
pub open spec fn entry_path_in(root: Seq<char>, es: Seq<WalkEntry>, v: Seq<char>) -> bool {
    exists|k: int| 0 <= k < es.len() && norm_of(root, (#[trigger] es[k].path)@) == Some(v)
}

/// The flat table holds exactly the virtual paths, other than the root's
/// own, that the walked entries normalize to.
pub open spec fn table_matches(t: Seq<Node>, root: Seq<char>, es: Seq<WalkEntry>) -> bool {
    &&& table_ok(t)
    &&& (forall|v: Seq<char>|
        #[trigger] table_has_path(t, v) <==> (v != root_vpath() && entry_path_in(root, es, v)))
}

/// The child index holds exactly the table's paths that derive a parent.
pub open spec fn index_matches(gs: Seq<Group>, t: Seq<Node>) -> bool {
    &&& index_ok(gs)
    &&& (forall|v: Seq<char>|
        #[trigger] member_view_in(gs, v) <==> (table_has_path(t, v) && parent_of(v) is Some))
}

/// Assemble the rooted content tree from the entries a walk of the content
/// root reported. Entries that do not lie under `root`, and the root itself,
/// are passed over; a thumbnail is extracted from each markdown document
/// whose body was read. The tree is exactly what some flat table and child
/// index covering the entries' virtual paths determine.
pub fn build_tree(root: &str, entries: &Vec<WalkEntry>) -> (t: Node)
    ensures
        t.name@ == "works"@,
        t.path@ == root_vpath(),
        t.is_dir,
        t.thumbnail is None,
        tree_wf(t),
        exists|tb: Seq<Node>, gs: Seq<Group>|
            table_matches(tb, root@, entries@) && #[trigger] index_matches(gs, tb) && attached(
                t,
                tb,
                gs,
            ),
{
    let mut table: Vec<Node> = Vec::new();
    let mut ei: usize = 0;
    while ei < entries.len()
        invariant
            table_ok(table@),
            0 <= ei <= entries@.len(),
            forall|v: Seq<char>|
                #[trigger] table_has_path(table@, v) <==> (v != root_vpath() && entry_path_in(
                    root@,
                    entries@.take(ei as int),
                    v,
                )),
        decreases entries@.len() - ei,
    {
        let ghost table0 = table@;
        let e = &entries[ei];
        let vp = normalize_path(root, e.path.as_str());
        proof {
            assert(entries@.take(ei + 1).drop_last() =~= entries@.take(ei as int));
            assert(entries@.take(ei + 1).last() == entries@[ei as int]);
        }
        match vp {
            None => {
                proof {
                    lemma_entry_prefix_step(root@, entries@, ei as int, table@);
                }
            },
            Some(vp) => {
                if !crate::text::str_eq(vp.as_str(), "/works") {
                    let thumbnail = if !e.is_dir && wants_content(e.name.as_str()) {
                        match &e.content {
                            Some(c) => extract_first_image(c.as_str()),
                            None => None,
                        }
                    } else {
                        None
                    };
                    let node = Node {
                        name: e.name.clone(),
                        path: vp,
                        is_dir: e.is_dir,
                        children: None,
                        thumbnail,
                    };
                    table_insert(&mut table, node);
                    proof {
                        assert forall|v: Seq<char>| #[trigger] table_has_path(table@, v) implies (v
                            != root_vpath() && entry_path_in(root@, entries@.take(ei + 1), v)) by {
                            if v == node.path@ {
                                assert(norm_of(root@, entries@.take(ei + 1)[ei as int].path@)
                                    == Some(v));
                            } else {
                                let k = choose|k: int|
                                    0 <= k < ei && norm_of(
                                        root@,
                                        (#[trigger] entries@.take(ei as int)[k].path)@,
                                    ) == Some(v);
                                assert(norm_of(root@, entries@.take(ei + 1)[k].path@) == Some(v));
                            }
                        }
                        assert forall|v: Seq<char>|
                            v != root_vpath() && entry_path_in(
                                root@,
                                entries@.take(ei + 1),
                                v,
                            ) implies #[trigger] table_has_path(table@, v) by {
                            let k = choose|k: int|
                                0 <= k < ei + 1 && norm_of(
                                    root@,
                                    (#[trigger] entries@.take(ei + 1)[k].path)@,
                                ) == Some(v);
                            if k < ei {
                                assert(norm_of(root@, entries@.take(ei as int)[k].path@) == Some(
                                    v,
                                ));
                                assert(table_has_path(table0, v));
                            }
                        }
                    }
                } else {
                    proof {
                        lemma_entry_prefix_step(root@, entries@, ei as int, table@);
                    }
                }
            },
        }
        ei += 1;
    }
    let mut by_parent: Vec<Group> = Vec::new();
    let mut i: usize = 0;
    while i < table.len()
        invariant
            table_ok(table@),
            index_ok(by_parent@),
            0 <= i <= table@.len(),
            forall|v: Seq<char>|
                #[trigger] member_view_in(by_parent@, v) <==> exists|j: int|
                    0 <= j < i && (#[trigger] table@[j].path)@ == v && parent_of(v) is Some,
        decreases table@.len() - i,
    {
        let ghost bp0 = by_parent@;
        let p = parent_path(table[i].path.as_str());
        match p {
            None => {
                proof {
                    assert forall|v: Seq<char>|
                        (exists|j: int|
                            0 <= j < i + 1 && (#[trigger] table@[j].path)@ == v && parent_of(v)
                                is Some) implies #[trigger] member_view_in(by_parent@, v) by {
                        let j = choose|j: int|
                            0 <= j < i + 1 && (#[trigger] table@[j].path)@ == v && parent_of(v)
                                is Some;
                        assert(j < i);
                    }
                }
            },
            Some(par) => {
                proof {
                    if member_view_in(by_parent@, table@[i as int].path@) {
                        let j = choose|j: int|
                            0 <= j < i && (#[trigger] table@[j].path)@ == table@[i as int].path@;
                        assert(false);
                    }
                }
                add_member(&mut by_parent, par, table[i].path.clone());
                proof {
                    assert forall|v: Seq<char>| #[trigger] member_view_in(by_parent@, v) implies (
                    exists|j: int|
                        0 <= j < i + 1 && (#[trigger] table@[j].path)@ == v && parent_of(v)
                            is Some) by {
                        if v == table@[i as int].path@ {
                            assert(table@[i as int].path@ == v && parent_of(v) is Some);
                        } else {
                            assert(member_view_in(bp0, v));
                        }
                    }
                    assert forall|v: Seq<char>|
                        (exists|j: int|
                            0 <= j < i + 1 && (#[trigger] table@[j].path)@ == v && parent_of(v)
                                is Some) implies #[trigger] member_view_in(by_parent@, v) by {
                        let j = choose|j: int|
                            0 <= j < i + 1 && (#[trigger] table@[j].path)@ == v && parent_of(v)
                                is Some;
                        if j < i {
                            assert(member_view_in(bp0, v));
                        } else {
                            assert(member_view_in(by_parent@, table@[i as int].path@));
                        }
                    }
                }
            },
        }
        i += 1;
    }
    let mut root_node = Node {
        name: "works".to_owned(),
        path: "/works".to_owned(),
        is_dir: true,
        children: None,
        thumbnail: None,
    };
    proof {
        assert(entries@.take(entries@.len() as int) =~= entries@);
        assert forall|v: Seq<char>| #[trigger] member_view_in(by_parent@, v) implies (
        table_has_path(table@, v) && parent_of(v) is Some) by {
            let j = choose|j: int|
                0 <= j < table@.len() && (#[trigger] table@[j].path)@ == v && parent_of(v) is Some;
            assert(table@[j].path@ == v);
        }
        assert forall|v: Seq<char>|
            table_has_path(table@, v) && parent_of(v) is Some implies #[trigger] member_view_in(
            by_parent@,
            v,
        ) by {
            let j = choose|j: int| 0 <= j < table@.len() && (#[trigger] table@[j].path)@ == v;
        }
        assert(table_matches(table@, root@, entries@));
        assert(index_matches(by_parent@, table@));
    }
    attach_children(&mut root_node, &table, &by_parent);
    proof {
        assert(table_matches(table@, root@, entries@) && index_matches(by_parent@, table@)
            && attached(root_node, table@, by_parent@));
    }
    root_node
}

proof fn lemma_entry_prefix_step(root: Seq<char>, es: Seq<WalkEntry>, k: int, t: Seq<Node>)
    requires
        0 <= k < es.len(),
        norm_of(root, es[k].path@) is None || norm_of(root, es[k].path@) == Some(root_vpath()),
        forall|v: Seq<char>|
            #[trigger] table_has_path(t, v) <==> (v != root_vpath() && entry_path_in(
                root,
                es.take(k),
                v,
            )),
    ensures
        forall|v: Seq<char>|
            #[trigger] table_has_path(t, v) <==> (v != root_vpath() && entry_path_in(
                root,
                es.take(k + 1),
                v,
            )),
{
    assert forall|v: Seq<char>|
        v != root_vpath() && entry_path_in(root, es.take(k + 1), v) implies #[trigger] table_has_path(
        t,
        v,
    ) by {
        let x = choose|x: int|
            0 <= x < k + 1 && norm_of(root, (#[trigger] es.take(k + 1)[x].path)@) == Some(v);
        if x < k {
            assert(norm_of(root, es.take(k)[x].path@) == Some(v));
        }
    }
    assert forall|v: Seq<char>| #[trigger] table_has_path(t, v) implies (v != root_vpath()
        && entry_path_in(root, es.take(k + 1), v)) by {
        let x = choose|x: int|
            0 <= x < k && norm_of(root, (#[trigger] es.take(k)[x].path)@) == Some(v);
        assert(norm_of(root, es.take(k + 1)[x].path@) == Some(v));
    }
}


} // verus!
