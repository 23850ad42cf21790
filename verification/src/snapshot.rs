//! The snapshot engine.
//!
//! Given the configured path specs, the home root and the current
//! working tree, a snapshot overwrites the tree so that every resolved
//! spec's region mirrors the home directory: regular files and
//! directories are copied (with embedded `.git` directories pruned),
//! and symbolic links are diverted into the ledger instead of the
//! literal tree.  Afterwards the ledger file is rewritten, or removed
//! when no link was registered.

use vstd::prelude::*;

verus! {

use crate::fsmodel::Fs;
use crate::fsmodel::Node;
use crate::fsmodel::NodeV;
use crate::fsmodel::clone_node;
use crate::fsmodel::mirror;
use crate::fsmodel::subtree_set;
use crate::fsmodel::under;
use crate::fsmodel::valid_keys;
use crate::ledger::SymlinkEntry;
use crate::ledger::SymlinkEntryV;
use crate::ledger::led_has_key;
use crate::ledger::led_sorted;
use crate::ledger::register_symlink;
use crate::ledger::serialize;
use crate::ledger::spec_encode;
use crate::paths::lemma_join_injective;
use crate::paths::join_components;
use crate::paths::metadata_path;
use crate::paths::resolve_spec;
use crate::paths::spec_join;
use crate::paths::spec_metadata_rel;
use crate::paths::spec_resolve;
use vstd::string::StrSliceExecFns;
use vstd::string::StringExecFns;
use vstd::utf8::encode_utf8;

/// How one configured spec fared.
#[derive(PartialEq, Eq, Structural, Clone, Copy, Debug)]
pub enum PathOutcome {
    /// The spec resolved and its source existed; its region was synced.
    Applied,
    /// The source does not exist on this machine; the spec was skipped.
    Missing,
    /// The spec does not resolve strictly under the home directory.
    OutsideHome,
}

/// The tree effect of one resolved spec.
pub open spec fn snap_one(
    home: Map<Seq<Seq<char>>, NodeV>,
    tree: Map<Seq<Seq<char>>, NodeV>,
    rel: Seq<Seq<char>>,
) -> Map<Seq<Seq<char>>, NodeV> {
    if !home.contains_key(rel) {
        tree
    } else {
        match home[rel] {
            NodeV::Link { .. } => tree.remove_keys(subtree_set(rel)),
            NodeV::Dir => mirror(tree, home, rel, true, true),
            NodeV::File { .. } => tree.remove_keys(subtree_set(rel)).insert(rel, home[rel]),
        }
    }
}

/// The tree effect of one spec string.
pub open spec fn snap_step(
    home: Map<Seq<Seq<char>>, NodeV>,
    tree: Map<Seq<Seq<char>>, NodeV>,
    s: Seq<char>,
    hp: Seq<char>,
) -> Map<Seq<Seq<char>>, NodeV> {
    match spec_resolve(s, hp) {
        None => tree,
        Some(rel) => snap_one(home, tree, rel),
    }
}

/// The tree after all specs, in order, before ledger finalization.
pub open spec fn snap_all(
    home: Map<Seq<Seq<char>>, NodeV>,
    tree: Map<Seq<Seq<char>>, NodeV>,
    specs: Seq<Seq<char>>,
    hp: Seq<char>,
) -> Map<Seq<Seq<char>>, NodeV>
    decreases specs.len(),
{
    if specs.len() == 0 {
        tree
    } else {
        snap_all(home, snap_step(home, tree, specs[0], hp), specs.drop_first(), hp)
    }
}

pub proof fn lemma_snap_all_snoc(
    home: Map<Seq<Seq<char>>, NodeV>,
    tree: Map<Seq<Seq<char>>, NodeV>,
    specs: Seq<Seq<char>>,
    x: Seq<char>,
    hp: Seq<char>,
)
    ensures
        snap_all(home, tree, specs.push(x), hp) == snap_step(
            home,
            snap_all(home, tree, specs, hp),
            x,
            hp,
        ),
    decreases specs.len(),
{
    if specs.len() == 0 {
        let q = specs.push(x);
        assert(q[0] == x);
        assert(q.drop_first() =~= Seq::<Seq<char>>::empty());
        assert(snap_all(home, snap_step(home, tree, x, hp), Seq::<Seq<char>>::empty(), hp)
            == snap_step(home, tree, x, hp));
    } else {
        let q = specs.push(x);
        assert(q[0] == specs[0]);
        assert(q.drop_first() =~= specs.drop_first().push(x));
        lemma_snap_all_snoc(home, snap_step(home, tree, specs[0], hp), specs.drop_first(), x, hp);
    }
}

/// A link is stored at `p` in `home`.
pub open spec fn link_at(home: Map<Seq<Seq<char>>, NodeV>, p: Seq<Seq<char>>) -> bool {
    home.contains_key(p) && home[p] is Link
}

/// Processing the spec resolved to `rel` registers the link at `p`.
pub open spec fn registered_by(
    home: Map<Seq<Seq<char>>, NodeV>,
    rel: Seq<Seq<char>>,
    p: Seq<Seq<char>>,
) -> bool {
    home.contains_key(rel) && match home[rel] {
        NodeV::Link { .. } => p == rel,
        NodeV::Dir => under(rel, p) && link_at(home, p),
        NodeV::File { .. } => false,
    }
}

/// Some spec of the run registers the link at `p`.
pub open spec fn registered(
    home: Map<Seq<Seq<char>>, NodeV>,
    specs: Seq<Seq<char>>,
    hp: Seq<char>,
    p: Seq<Seq<char>>,
) -> bool {
    exists|i: int|
        0 <= i < specs.len() && match #[trigger] spec_resolve(specs[i], hp) {
            Some(rel) => registered_by(home, rel, p),
            None => false,
        }
}

/// The ledger record written for the link at `p`.
pub open spec fn ledger_entry(home: Map<Seq<Seq<char>>, NodeV>, p: Seq<Seq<char>>) -> SymlinkEntryV {
    match home[p] {
        NodeV::Link { target, is_dir } => SymlinkEntryV { path: spec_join(p), target, is_dir },
        _ => SymlinkEntryV { path: spec_join(p), target: Seq::empty(), is_dir: false },
    }
}

/// `ev` is a record the run's ledger must carry.
pub open spec fn ledger_member(
    home: Map<Seq<Seq<char>>, NodeV>,
    specs: Seq<Seq<char>>,
    hp: Seq<char>,
    ev: SymlinkEntryV,
) -> bool {
    exists|p: Seq<Seq<char>>| #[trigger] registered(home, specs, hp, p) && ev == ledger_entry(home, p)
}

/// The outcome reported for one spec.
pub open spec fn spec_outcome(
    home: Map<Seq<Seq<char>>, NodeV>,
    s: Seq<char>,
    hp: Seq<char>,
) -> PathOutcome {
    match spec_resolve(s, hp) {
        None => PathOutcome::OutsideHome,
        Some(rel) => if home.contains_key(rel) {
            PathOutcome::Applied
        } else {
            PathOutcome::Missing
        },
    }
}

/// Extending the processed specs by one adds that spec's registrations.
proof fn lemma_registered_extend(
    home: Map<Seq<Seq<char>>, NodeV>,
    specs: Seq<Seq<char>>,
    hp: Seq<char>,
    i: int,
)
    requires
        0 <= i < specs.len(),
    ensures
        forall|p: Seq<Seq<char>>|
            #![trigger registered(home, specs.subrange(0, i + 1), hp, p)]
            registered(home, specs.subrange(0, i + 1), hp, p) <==> (registered(
                home,
                specs.subrange(0, i),
                hp,
                p,
            ) || (match spec_resolve(specs[i], hp) {
                Some(rel) => registered_by(home, rel, p),
                None => false,
            })),
{
    let pre = specs.subrange(0, i);
    let cur = specs.subrange(0, i + 1);
    assert forall|p: Seq<Seq<char>>|
        #![trigger registered(home, cur, hp, p)]
        registered(home, cur, hp, p) <==> (registered(home, pre, hp, p) || (
        match spec_resolve(specs[i], hp) {
            Some(rel) => registered_by(home, rel, p),
            None => false,
        })) by {
        if registered(home, cur, hp, p) {
            let w = choose|w: int|
                0 <= w < cur.len() && match #[trigger] spec_resolve(cur[w], hp) {
                    Some(rel) => registered_by(home, rel, p),
                    None => false,
                };
            if w < i {
                assert(pre[w] == cur[w]);
                assert(spec_resolve(pre[w], hp) == spec_resolve(cur[w], hp));
                assert(registered(home, pre, hp, p));
            } else {
                assert(cur[w] == specs[i]);
            }
        }
        if registered(home, pre, hp, p) {
            let w = choose|w: int|
                0 <= w < pre.len() && match #[trigger] spec_resolve(pre[w], hp) {
                    Some(rel) => registered_by(home, rel, p),
                    None => false,
                };
            assert(cur[w] == pre[w]);
            assert(spec_resolve(cur[w], hp) == spec_resolve(pre[w], hp));
            assert(registered(home, cur, hp, p));
        }
        match spec_resolve(specs[i], hp) {
            Some(rel) => {
                if registered_by(home, rel, p) {
                    assert(cur[i] == specs[i]);
                    assert(spec_resolve(cur[i], hp) == spec_resolve(specs[i], hp));
                    assert(registered(home, cur, hp, p));
                }
            },
            None => {},
        }
    }
}

/// Registered paths are keys of the home root.
proof fn lemma_registered_is_key(
    home: Map<Seq<Seq<char>>, NodeV>,
    specs: Seq<Seq<char>>,
    hp: Seq<char>,
    p: Seq<Seq<char>>,
)
    requires
        registered(home, specs, hp, p),
    ensures
        home.contains_key(p),
        home[p] is Link,
{
    let w = choose|w: int|
        0 <= w < specs.len() && match #[trigger] spec_resolve(specs[w], hp) {
            Some(rel) => registered_by(home, rel, p),
            None => false,
        };
    match spec_resolve(specs[w], hp) {
        Some(rel) => {
            match home[rel] {
                NodeV::Link { .. } => {},
                NodeV::Dir => {},
                NodeV::File { .. } => {},
            }
        },
        None => {},
    }
}

/// The result of a snapshot run.
pub struct SnapshotResult {
    /// The new working tree, ledger file included.
    pub tree: Fs,
    /// The registered symlink records, sorted by path.
    pub ledger: Vec<SymlinkEntry>,
    /// One outcome per configured spec, in order.
    pub outcomes: Vec<PathOutcome>,
}

/// Overwrites the working tree to reflect the home state of every
/// resolved spec, collecting symbolic links into the ledger, and
/// finalizes the ledger file inside the tree.
///
/// The home model must carry valid component paths (non-empty, free
/// of separators), which is what any real directory walk produces;
/// it makes the joined ledger keys unique.
pub fn snapshot(specs: &Vec<String>, home_path: &str, home: &Fs, tree: Fs) -> (r: SnapshotResult)
    requires
        home.wf(),
        tree.wf(),
        valid_keys(home@),
    ensures
        r.tree.wf(),
        led_sorted(r.ledger.deep_view()),
        forall|ev: SymlinkEntryV|
            #![trigger r.ledger.deep_view().contains(ev)]
            r.ledger.deep_view().contains(ev) <==> ledger_member(
                home@,
                specs.deep_view(),
                home_path@,
                ev,
            ),
        r.tree@ == (if r.ledger@.len() == 0 {
            snap_all(home@, tree@, specs.deep_view(), home_path@).remove(spec_metadata_rel())
        } else {
            snap_all(home@, tree@, specs.deep_view(), home_path@).insert(
                spec_metadata_rel(),
                NodeV::File { content: encode_utf8(spec_encode(r.ledger.deep_view())) },
            )
        }),
        r.outcomes@.len() == specs@.len(),
        forall|i: int|
            0 <= i < specs@.len() ==> r.outcomes@[i] == spec_outcome(
                home@,
                specs.deep_view()[i],
                home_path@,
            ),
{
    let ghost sdv = specs.deep_view();
    let ghost hp = home_path@;
    let ghost hm = home@;
    let ghost tree0 = tree@;
    let mut tree = tree;
    let mut led: Vec<SymlinkEntry> = Vec::new();
    let mut outcomes: Vec<PathOutcome> = Vec::new();
    let mut i: usize = 0;
    proof {
        assert(sdv.subrange(0, 0) =~= Seq::<Seq<char>>::empty());
        assert forall|ev: SymlinkEntryV|
            led.deep_view().contains(ev) <==> ledger_member(hm, sdv.subrange(0, 0), hp, ev) by {
            if ledger_member(hm, sdv.subrange(0, 0), hp, ev) {
                let p = choose|p: Seq<Seq<char>>|
                    #[trigger] registered(hm, sdv.subrange(0, 0), hp, p) && ev == ledger_entry(
                        hm,
                        p,
                    );
                assert(false);
            }
        }
    }
    while i < specs.len()
        invariant
            0 <= i <= specs@.len(),
            sdv == specs.deep_view(),
            sdv.len() == specs@.len(),
            hp == home_path@,
            hm == home@,
            home.wf(),
            valid_keys(hm),
            tree.wf(),
            tree@ == snap_all(hm, tree0, sdv.subrange(0, i as int), hp),
            led_sorted(led.deep_view()),
            forall|ev: SymlinkEntryV|
                #![trigger led.deep_view().contains(ev)]
                led.deep_view().contains(ev) <==> ledger_member(hm, sdv.subrange(0, i as int), hp, ev),
            outcomes@.len() == i,
            forall|j: int| 0 <= j < i ==> outcomes@[j] == spec_outcome(hm, sdv[j], hp),
        decreases specs@.len() - i,
    {
        let ghost pre_specs = sdv.subrange(0, i as int);
        let ghost cur_specs = sdv.subrange(0, i as int + 1);
        proof {
            assert(pre_specs.push(sdv[i as int]) =~= cur_specs);
            lemma_snap_all_snoc(hm, tree0, pre_specs, sdv[i as int], hp);
            lemma_registered_extend(hm, sdv, hp, i as int);
            assert(sdv.subrange(0, i as int + 1) =~= sdv.subrange(0, i as int).push(sdv[i as int]));
            assert(specs@[i as int]@ == sdv[i as int]);
        }
        let resolved = resolve_spec(specs[i].as_str(), home_path);
        match resolved {
            None => {
                outcomes.push(PathOutcome::OutsideHome);
                proof {
                    assert(spec_resolve(sdv[i as int], hp) is None);
                    assert(tree@ == snap_all(hm, tree0, cur_specs, hp));
                    assert forall|ev: SymlinkEntryV|
                        #![trigger led.deep_view().contains(ev)]
                        led.deep_view().contains(ev) <==> ledger_member(hm, cur_specs, hp, ev) by {
                        assert forall|p: Seq<Seq<char>>|
                            #[trigger] registered(hm, cur_specs, hp, p) <==> registered(
                                hm,
                                pre_specs,
                                hp,
                                p,
                            ) by {
                            assert(registered(hm, sdv.subrange(0, i as int + 1), hp, p)
                                <==> (registered(hm, sdv.subrange(0, i as int), hp, p) || false));
                        }
                        if ledger_member(hm, cur_specs, hp, ev) {
                            let p = choose|p: Seq<Seq<char>>|
                                #[trigger] registered(hm, cur_specs, hp, p) && ev == ledger_entry(
                                    hm,
                                    p,
                                );
                            assert(registered(hm, pre_specs, hp, p));
                            assert(ledger_member(hm, pre_specs, hp, ev));
                        }
                        if ledger_member(hm, pre_specs, hp, ev) {
                            let p = choose|p: Seq<Seq<char>>|
                                #[trigger] registered(hm, pre_specs, hp, p) && ev == ledger_entry(
                                    hm,
                                    p,
                                );
                            assert(registered(hm, cur_specs, hp, p));
                            assert(ledger_member(hm, cur_specs, hp, ev));
                        }
                    }
                }
            },
            Some(rel) => {
                let ghost reld = rel.deep_view();
                proof {
                    assert(Some(reld) == spec_resolve(sdv[i as int], hp));
                }
                let found = home.lookup(&rel);
                match found {
                    None => {
                        outcomes.push(PathOutcome::Missing);
                        proof {
                            assert(!hm.contains_key(reld));
                            assert(snap_one(hm, tree@, reld) == tree@);
                            assert(tree@ == snap_all(hm, tree0, cur_specs, hp));
                            assert forall|ev: SymlinkEntryV|
                                #![trigger led.deep_view().contains(ev)]
                                led.deep_view().contains(ev) <==> ledger_member(
                                    hm,
                                    cur_specs,
                                    hp,
                                    ev,
                                ) by {
                                assert forall|p: Seq<Seq<char>>|
                                    #[trigger] registered(hm, cur_specs, hp, p) <==> registered(
                                        hm,
                                        pre_specs,
                                        hp,
                                        p,
                                    ) by {
                                    assert(registered(hm, sdv.subrange(0, i as int + 1), hp, p)
                                        <==> (registered(hm, sdv.subrange(0, i as int), hp, p) || (
                                    registered_by(hm, reld, p))));
                                    assert(!registered_by(hm, reld, p));
                                }
                                if ledger_member(hm, cur_specs, hp, ev) {
                                    let p = choose|p: Seq<Seq<char>>|
                                        #[trigger] registered(hm, cur_specs, hp, p) && ev
                                            == ledger_entry(hm, p);
                                    assert(registered(hm, pre_specs, hp, p));
                                    assert(ledger_member(hm, pre_specs, hp, ev));
                                }
                                if ledger_member(hm, pre_specs, hp, ev) {
                                    let p = choose|p: Seq<Seq<char>>|
                                        #[trigger] registered(hm, pre_specs, hp, p) && ev
                                            == ledger_entry(hm, p);
                                    assert(registered(hm, cur_specs, hp, p));
                                    assert(ledger_member(hm, cur_specs, hp, ev));
                                }
                            }
                        }
                    },
                    Some(node) => {
                        outcomes.push(PathOutcome::Applied);
                        proof {
                            assert(hm.contains_key(reld));
                            assert(node@ == hm[reld]);
                        }
                        match node {
                            Node::Link { target, is_dir } => {
                                tree.remove_subtree(&rel);
                                let e = SymlinkEntry {
                                    path: join_components(&rel),
                                    target: target.as_str().to_owned(),
                                    is_dir: *is_dir,
                                };
                                proof {
                                    assert(e@ == ledger_entry(hm, reld));
                                }
                                let ghost pre_led = led.deep_view();
                                register_symlink(&mut led, e);
                                proof {
                                    assert(tree@ == snap_all(hm, tree0, cur_specs, hp));
                                    assert(valid_keys(hm));
                                    lemma_ledger_union_one(hm, pre_specs, hp, pre_led, led.deep_view(), reld);
                                    assert forall|ev: SymlinkEntryV|
                                        #![trigger led.deep_view().contains(ev)]
                                        led.deep_view().contains(ev) <==> ledger_member(
                                            hm,
                                            cur_specs,
                                            hp,
                                            ev,
                                        ) by {
                                        assert(led.deep_view().contains(ev) <==> (ledger_member(
                                            hm,
                                            pre_specs,
                                            hp,
                                            ev,
                                        ) || ev == ledger_entry(hm, reld)));
                                        lemma_member_extend_link(hm, sdv, hp, i as int, reld, ev);
                                    }
                                }
                            },
                            Node::Dir => {
                                tree.copy_under(home, &rel, true, true);
                                proof {
                                    assert(tree@ == snap_all(hm, tree0, cur_specs, hp));
                                }
                                let links = home.link_entries_under(&rel);
                                let ghost lks = links@;
                                let mut a: usize = 0;
                                while a < links.len()
                                    invariant
                                        0 <= a <= lks.len(),
                                        0 <= i < sdv.len(),
                                        lks == links@,
                                        hm == home@,
                                        home.wf(),
                                        valid_keys(hm),
                                        crate::fsmodel::entries_ok(lks),
                                        forall|b: int|
                                            0 <= b < lks.len() ==> {
                                                let k = (#[trigger] lks[b]).path.deep_view();
                                                under(reld, k) && hm.contains_key(k) && hm[k]
                                                    == lks[b].node@ && (lks[b].node@ is Link)
                                            },
                                        led_sorted(led.deep_view()),
                                        forall|ev: SymlinkEntryV|
                                            #![trigger led.deep_view().contains(ev)]
                                            led.deep_view().contains(ev) <==> (ledger_member(
                                                hm,
                                                sdv.subrange(0, i as int),
                                                hp,
                                                ev,
                                            ) || (exists|b: int|
                                                0 <= b < a && ev == ledger_entry(
                                                    hm,
                                                    (#[trigger] lks[b]).path.deep_view(),
                                                ))),
                                    decreases lks.len() - a,
                                {
                                    let ghost pd = lks[a as int].path.deep_view();
                                    match &links[a].node {
                                        Node::Link { target, is_dir } => {
                                            let e = SymlinkEntry {
                                                path: join_components(&links[a].path),
                                                target: target.as_str().to_owned(),
                                                is_dir: *is_dir,
                                            };
                                            proof {
                                                assert(lks[a as int].node@ == hm[pd]);
                                                assert(e@ == ledger_entry(hm, pd));
                                            }
                                            let ghost pre_led = led.deep_view();
                                            register_symlink(&mut led, e);
                                            proof {
                                                lemma_ledger_union_dir(
                                                    hm,
                                                    sdv.subrange(0, i as int),
                                                    hp,
                                                    pre_led,
                                                    led.deep_view(),
                                                    lks,
                                                    a as int,
                                                );
                                            }
                                        },
                                        _ => {
                                            proof {
                                                assert(lks[a as int].node@ is Link);
                                                assert(false);
                                            }
                                        },
                                    }
                                    a += 1;
                                }
                                proof {
                                    assert forall|ev: SymlinkEntryV|
                                        #![trigger led.deep_view().contains(ev)]
                                        led.deep_view().contains(ev) <==> ledger_member(
                                            hm,
                                            cur_specs,
                                            hp,
                                            ev,
                                        ) by {
                                        if led.deep_view().contains(ev) {
                                            if ledger_member(hm, pre_specs, hp, ev) {
                                                let p = choose|p: Seq<Seq<char>>|
                                                    #[trigger] registered(hm, pre_specs, hp, p)
                                                        && ev == ledger_entry(hm, p);
                                                assert(registered(hm, cur_specs, hp, p));
                                                assert(ledger_member(hm, cur_specs, hp, ev));
                                            } else {
                                                let b = choose|b: int|
                                                    0 <= b < lks.len() && ev == ledger_entry(
                                                        hm,
                                                        (#[trigger] lks[b]).path.deep_view(),
                                                    );
                                                let p = lks[b].path.deep_view();
                                                assert(registered_by(hm, reld, p));
                                                assert(registered(hm, cur_specs, hp, p));
                                                assert(ledger_member(hm, cur_specs, hp, ev));
                                            }
                                        }
                                        if ledger_member(hm, cur_specs, hp, ev) {
                                            let p = choose|p: Seq<Seq<char>>|
                                                #[trigger] registered(hm, cur_specs, hp, p) && ev
                                                    == ledger_entry(hm, p);
                                            if registered(hm, pre_specs, hp, p) {
                                                assert(ledger_member(hm, pre_specs, hp, ev));
                                            } else {
                                                assert(registered_by(hm, reld, p));
                                                assert(under(reld, p) && link_at(hm, p));
                                                assert(crate::fsmodel::has_path(lks, p));
                                                let b = choose|b: int|
                                                    0 <= b < lks.len() && (
                                                    #[trigger] lks[b]).path.deep_view() == p;
                                                assert(ev == ledger_entry(
                                                    hm,
                                                    lks[b].path.deep_view(),
                                                ));
                                            }
                                        }
                                    }
                                }
                            },
                            Node::File { .. } => {
                                tree.remove_subtree(&rel);
                                let copied = clone_node(node);
                                tree.set_node(&rel, copied);
                                proof {
                                    assert(tree@ == snap_all(hm, tree0, cur_specs, hp));
                                    assert forall|ev: SymlinkEntryV|
                                        #![trigger led.deep_view().contains(ev)]
                                        led.deep_view().contains(ev) <==> ledger_member(
                                            hm,
                                            cur_specs,
                                            hp,
                                            ev,
                                        ) by {
                                        assert forall|p: Seq<Seq<char>>|
                                            #[trigger] registered(hm, cur_specs, hp, p)
                                                <==> registered(hm, pre_specs, hp, p) by {
                                            assert(registered(hm, sdv.subrange(0, i as int + 1), hp, p)
                                                <==> (registered(hm, sdv.subrange(0, i as int), hp, p)
                                                || registered_by(hm, reld, p)));
                                            assert(!registered_by(hm, reld, p));
                                        }
                                        if ledger_member(hm, cur_specs, hp, ev) {
                                            let p = choose|p: Seq<Seq<char>>|
                                                #[trigger] registered(hm, cur_specs, hp, p) && ev
                                                    == ledger_entry(hm, p);
                                            assert(registered(hm, pre_specs, hp, p));
                                            assert(ledger_member(hm, pre_specs, hp, ev));
                                        }
                                        if ledger_member(hm, pre_specs, hp, ev) {
                                            let p = choose|p: Seq<Seq<char>>|
                                                #[trigger] registered(hm, pre_specs, hp, p) && ev
                                                    == ledger_entry(hm, p);
                                            assert(registered(hm, cur_specs, hp, p));
                                            assert(ledger_member(hm, cur_specs, hp, ev));
                                        }
                                    }
                                }
                            },
                        }
                    },
                }
            },
        }
        i += 1;
    }
    proof {
        assert(sdv.subrange(0, sdv.len() as int) =~= sdv);
    }
    let meta = metadata_path();
    if led.len() == 0 {
        tree.remove_path(&meta);
    } else {
        let text = serialize(&led);
        let bytes = text.as_str().as_bytes_vec();
        proof {
            assert(bytes@ == encode_utf8(spec_encode(led.deep_view())));
            assert(meta.deep_view().len() == 2);
            assert(meta@.len() == 2);
        }
        tree.set_node(&meta, Node::File { content: bytes });
    }
    SnapshotResult { tree, ledger: led, outcomes }
}

/// After registering the link at `p`, the ledger's record set is the
/// old set plus `p`'s record.
proof fn lemma_ledger_union_one(
    home: Map<Seq<Seq<char>>, NodeV>,
    specs: Seq<Seq<char>>,
    hp: Seq<char>,
    pre: Seq<SymlinkEntryV>,
    post: Seq<SymlinkEntryV>,
    p: Seq<Seq<char>>,
)
    requires
        valid_keys(home),
        home.contains_key(p),
        forall|ev: SymlinkEntryV|
            #![trigger pre.contains(ev)]
            pre.contains(ev) <==> ledger_member(home, specs, hp, ev),
        forall|ev: SymlinkEntryV|
            #![trigger post.contains(ev)]
            post.contains(ev) <==> (pre.contains(ev) || (ev == ledger_entry(home, p)
                && !led_has_key(pre, ledger_entry(home, p).path))),
    ensures
        forall|ev: SymlinkEntryV|
            #![trigger post.contains(ev)]
            post.contains(ev) <==> (ledger_member(home, specs, hp, ev) || ev == ledger_entry(
                home,
                p,
            )),
{
    let target = ledger_entry(home, p);
    assert forall|ev: SymlinkEntryV|
        #![trigger post.contains(ev)]
        post.contains(ev) <==> (ledger_member(home, specs, hp, ev) || ev == target) by {
        if led_has_key(pre, target.path) {
            let b = choose|b: int| 0 <= b < pre.len() && (#[trigger] pre[b]).path == target.path;
            let old_ev = pre[b];
            assert(pre.contains(old_ev));
            assert(ledger_member(home, specs, hp, old_ev));
            let q = choose|q: Seq<Seq<char>>|
                #[trigger] registered(home, specs, hp, q) && old_ev == ledger_entry(home, q);
            lemma_registered_is_key(home, specs, hp, q);
            assert(spec_join(q) == spec_join(p));
            lemma_join_injective(q, p);
            assert(old_ev == target);
            if ev == target {
                assert(pre.contains(ev));
            }
        }
    }
}

/// After registering the `a`-th collected link of a directory spec,
/// the record set is the old set plus that link's record.
proof fn lemma_ledger_union_dir(
    home: Map<Seq<Seq<char>>, NodeV>,
    specs: Seq<Seq<char>>,
    hp: Seq<char>,
    pre: Seq<SymlinkEntryV>,
    post: Seq<SymlinkEntryV>,
    lks: Seq<crate::fsmodel::FsEntry>,
    a: int,
)
    requires
        valid_keys(home),
        0 <= a < lks.len(),
        forall|b: int|
            0 <= b < lks.len() ==> home.contains_key((#[trigger] lks[b]).path.deep_view()),
        forall|ev: SymlinkEntryV|
            #![trigger pre.contains(ev)]
            pre.contains(ev) <==> (ledger_member(home, specs, hp, ev) || (exists|b: int|
                0 <= b < a && ev == ledger_entry(home, (#[trigger] lks[b]).path.deep_view()))),
        forall|ev: SymlinkEntryV|
            #![trigger post.contains(ev)]
            post.contains(ev) <==> (pre.contains(ev) || (ev == ledger_entry(
                home,
                lks[a].path.deep_view(),
            ) && !led_has_key(pre, ledger_entry(home, lks[a].path.deep_view()).path))),
    ensures
        forall|ev: SymlinkEntryV|
            #![trigger post.contains(ev)]
            post.contains(ev) <==> (ledger_member(home, specs, hp, ev) || (exists|b: int|
                0 <= b < a + 1 && ev == ledger_entry(home, (#[trigger] lks[b]).path.deep_view()))),
{
    let p = lks[a].path.deep_view();
    let target = ledger_entry(home, p);
    assert forall|ev: SymlinkEntryV|
        #![trigger post.contains(ev)]
        post.contains(ev) <==> (ledger_member(home, specs, hp, ev) || (exists|b: int|
            0 <= b < a + 1 && ev == ledger_entry(home, (#[trigger] lks[b]).path.deep_view()))) by {
        if led_has_key(pre, target.path) {
            let c = choose|c: int| 0 <= c < pre.len() && (#[trigger] pre[c]).path == target.path;
            let old_ev = pre[c];
            assert(pre.contains(old_ev));
            if ledger_member(home, specs, hp, old_ev) {
                let q = choose|q: Seq<Seq<char>>|
                    #[trigger] registered(home, specs, hp, q) && old_ev == ledger_entry(home, q);
                lemma_registered_is_key(home, specs, hp, q);
                assert(spec_join(q) == spec_join(p));
                lemma_join_injective(q, p);
                assert(old_ev == target);
            } else {
                let b = choose|b: int|
                    0 <= b < a && old_ev == ledger_entry(home, (#[trigger] lks[b]).path.deep_view());
                let q = lks[b].path.deep_view();
                assert(spec_join(q) == spec_join(p));
                lemma_join_injective(q, p);
                assert(old_ev == target);
            }
            assert(pre.contains(target));
            if ev == target {
                assert(post.contains(ev));
            }
        }
        if post.contains(ev) {
            if pre.contains(ev) {
                if !ledger_member(home, specs, hp, ev) {
                    let b = choose|b: int|
                        0 <= b < a && ev == ledger_entry(home, (#[trigger] lks[b]).path.deep_view());
                    assert(0 <= b < a + 1);
                }
            } else {
                assert(ev == target);
                assert(ev == ledger_entry(home, lks[a].path.deep_view()));
            }
        }
        if exists|b: int|
            0 <= b < a + 1 && ev == ledger_entry(home, (#[trigger] lks[b]).path.deep_view()) {
            let b = choose|b: int|
                0 <= b < a + 1 && ev == ledger_entry(home, (#[trigger] lks[b]).path.deep_view());
            if b < a {
                assert(pre.contains(ev));
            } else {
                assert(ev == target);
                if !led_has_key(pre, target.path) {
                    assert(post.contains(ev));
                } else {
                    assert(pre.contains(target));
                }
            }
        }
    }
}

/// Extending the run by a spec that resolved to a link at `rel` adds
/// exactly `rel`'s record to the ledger members.
proof fn lemma_member_extend_link(
    home: Map<Seq<Seq<char>>, NodeV>,
    specs: Seq<Seq<char>>,
    hp: Seq<char>,
    i: int,
    rel: Seq<Seq<char>>,
    ev: SymlinkEntryV,
)
    requires
        0 <= i < specs.len(),
        spec_resolve(specs[i], hp) == Some(rel),
        home.contains_key(rel),
        home[rel] is Link,
    ensures
        ledger_member(home, specs.subrange(0, i + 1), hp, ev) <==> (ledger_member(
            home,
            specs.subrange(0, i),
            hp,
            ev,
        ) || ev == ledger_entry(home, rel)),
{
    let pre = specs.subrange(0, i);
    let cur = specs.subrange(0, i + 1);
    lemma_registered_extend(home, specs, hp, i);
    if ledger_member(home, cur, hp, ev) {
        let p = choose|p: Seq<Seq<char>>|
            #[trigger] registered(home, cur, hp, p) && ev == ledger_entry(home, p);
        assert(registered(home, cur, hp, p) <==> (registered(home, pre, hp, p) || registered_by(
            home,
            rel,
            p,
        )));
        if registered(home, pre, hp, p) {
            assert(ledger_member(home, pre, hp, ev));
        } else {
            assert(registered_by(home, rel, p));
            assert(p == rel);
        }
    }
    if ledger_member(home, pre, hp, ev) {
        let p = choose|p: Seq<Seq<char>>|
            #[trigger] registered(home, pre, hp, p) && ev == ledger_entry(home, p);
        assert(registered(home, cur, hp, p) <==> (registered(home, pre, hp, p) || registered_by(
            home,
            rel,
            p,
        )));
        assert(registered(home, cur, hp, p));
        assert(ledger_member(home, cur, hp, ev));
    }
    if ev == ledger_entry(home, rel) {
        assert(registered_by(home, rel, rel));
        assert(registered(home, cur, hp, rel) <==> (registered(home, pre, hp, rel)
            || registered_by(home, rel, rel)));
        assert(registered(home, cur, hp, rel));
        assert(ledger_member(home, cur, hp, ev));
    }
}

} // verus!
