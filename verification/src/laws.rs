//! Engine-level laws.
//!
//! Each proof function here states one guarantee of the snapshot /
//! restore pair over the same spec functions the engines' contracts
//! use, so the guarantees hold of every run of the verified engines.

use vstd::prelude::*;

verus! {

use crate::fsmodel::NodeV;
use crate::fsmodel::copy_keep;
use crate::fsmodel::git_pruned;
use crate::fsmodel::subtree_set;
use crate::fsmodel::under;
use crate::fsmodel::valid_keys;
use crate::ledger::SymlinkEntryV;
use crate::ledger::led_sorted;
use crate::ledger::spec_encode;
use crate::paths::lemma_split_join;
use crate::paths::spec_join;
use crate::paths::spec_metadata_rel;
use crate::paths::spec_resolve;
use crate::paths::spec_split;
use crate::paths::valid_key;
use crate::restore::replay_all;
use crate::restore::replay_one;
use crate::restore::restore_all;
use crate::restore::restore_one;
use crate::restore::restore_step;
use crate::restore::spec_ledger_of_tree;
use crate::restore::spec_resolved_target;
use crate::snapshot::PathOutcome;
use crate::snapshot::ledger_entry;
use crate::snapshot::link_at;
use crate::snapshot::ledger_member;
use crate::snapshot::registered;
use crate::snapshot::registered_by;
use crate::snapshot::snap_all;
use crate::snapshot::snap_one;
use crate::snapshot::snap_step;
use crate::snapshot::spec_outcome;
use vstd::utf8::decode_utf8;
use vstd::utf8::encode_utf8;
use vstd::utf8::encode_utf8_decode_utf8;
use vstd::utf8::encode_utf8_valid_utf8;

/// The tree a snapshot run leaves behind, given the ledger it
/// collected: the per-spec mirror of the home state, with the ledger
/// file rewritten, or removed when no link was registered.
pub open spec fn snapshot_tree(
    home: Map<Seq<Seq<char>>, NodeV>,
    tree: Map<Seq<Seq<char>>, NodeV>,
    specs: Seq<Seq<char>>,
    hp: Seq<char>,
    l: Seq<SymlinkEntryV>,
) -> Map<Seq<Seq<char>>, NodeV> {
    if l.len() == 0 {
        snap_all(home, tree, specs, hp).remove(spec_metadata_rel())
    } else {
        snap_all(home, tree, specs, hp).insert(
            spec_metadata_rel(),
            NodeV::File { content: encode_utf8(spec_encode(l)) },
        )
    }
}

/// A ledger collected by a snapshot run: sorted by path, holding
/// exactly the run's registered links.
pub open spec fn is_run_ledger(
    home: Map<Seq<Seq<char>>, NodeV>,
    specs: Seq<Seq<char>>,
    hp: Seq<char>,
    l: Seq<SymlinkEntryV>,
) -> bool {
    led_sorted(l) && (forall|ev: SymlinkEntryV|
        #![trigger l.contains(ev)]
        l.contains(ev) <==> ledger_member(home, specs, hp, ev))
}

/// A one-spec run takes exactly one step.
proof fn lemma_snap_single(
    home: Map<Seq<Seq<char>>, NodeV>,
    tree: Map<Seq<Seq<char>>, NodeV>,
    s: Seq<char>,
    hp: Seq<char>,
)
    ensures
        snap_all(home, tree, seq![s], hp) == snap_step(home, tree, s, hp),
{
    assert(seq![s][0] == s);
    assert(seq![s].drop_first() =~= Seq::<Seq<char>>::empty());
    assert(snap_all(home, snap_step(home, tree, s, hp), Seq::<Seq<char>>::empty(), hp)
        == snap_step(home, tree, s, hp));
}

/// A one-spec restore takes exactly one step.
proof fn lemma_restore_single(
    tree: Map<Seq<Seq<char>>, NodeV>,
    home: Map<Seq<Seq<char>>, NodeV>,
    s: Seq<char>,
    hp: Seq<char>,
)
    ensures
        restore_all(tree, home, seq![s], hp) == restore_step(tree, home, s, hp),
{
    assert(seq![s][0] == s);
    assert(seq![s].drop_first() =~= Seq::<Seq<char>>::empty());
    assert(restore_all(tree, restore_step(tree, home, s, hp), Seq::<Seq<char>>::empty(), hp)
        == restore_step(tree, home, s, hp));
}

/// Outside-home rejection: a spec that does not resolve strictly
/// under the home directory is reported as such and leaves the
/// working tree untouched.
pub proof fn lemma_outside_home_rejected(
    home: Map<Seq<Seq<char>>, NodeV>,
    tree: Map<Seq<Seq<char>>, NodeV>,
    s: Seq<char>,
    hp: Seq<char>,
)
    requires
        spec_resolve(s, hp) is None,
    ensures
        snap_step(home, tree, s, hp) == tree,
        restore_step(tree, home, s, hp) == home,
        spec_outcome(home, s, hp) == PathOutcome::OutsideHome,
        snap_all(home, tree, seq![s], hp) == tree,
{
    lemma_snap_single(home, tree, s, hp);
}

/// Empty-ledger cleanup: when a run registers no link, its working
/// tree carries no ledger file, whatever an earlier run left there.
pub proof fn lemma_empty_ledger_cleanup(
    home: Map<Seq<Seq<char>>, NodeV>,
    tree: Map<Seq<Seq<char>>, NodeV>,
    specs: Seq<Seq<char>>,
    hp: Seq<char>,
    l: Seq<SymlinkEntryV>,
)
    requires
        is_run_ledger(home, specs, hp, l),
        forall|p: Seq<Seq<char>>| !(#[trigger] registered(home, specs, hp, p)),
    ensures
        l.len() == 0,
        !snapshot_tree(home, tree, specs, hp, l).contains_key(spec_metadata_rel()),
{
    if l.len() > 0 {
        assert(l.contains(l[0]));
        assert(ledger_member(home, specs, hp, l[0]));
        let p = choose|p: Seq<Seq<char>>|
            #[trigger] registered(home, specs, hp, p) && l[0] == ledger_entry(home, p);
        assert(false);
    }
}

/// Directory mirror semantics: after a snapshot of a directory spec,
/// the tree's region under it holds exactly the home directory's kept
/// nodes, unchanged in content -- anything else is gone.
pub proof fn lemma_directory_mirror(
    home: Map<Seq<Seq<char>>, NodeV>,
    tree: Map<Seq<Seq<char>>, NodeV>,
    s: Seq<char>,
    hp: Seq<char>,
    rel: Seq<Seq<char>>,
    l: Seq<SymlinkEntryV>,
)
    requires
        spec_resolve(s, hp) == Some(rel),
        home.contains_key(rel),
        home[rel] is Dir,
        is_run_ledger(home, seq![s], hp, l),
    ensures
        forall|k: Seq<Seq<char>>|
            under(rel, k) && k != spec_metadata_rel() ==> (#[trigger] snapshot_tree(
                home,
                tree,
                seq![s],
                hp,
                l,
            ).contains_key(k) <==> (home.contains_key(k) && copy_keep(
                rel.len() as int,
                k,
                home[k],
                true,
                true,
            ))),
        forall|k: Seq<Seq<char>>|
            under(rel, k) && k != spec_metadata_rel() && #[trigger] snapshot_tree(
                home,
                tree,
                seq![s],
                hp,
                l,
            ).contains_key(k) ==> snapshot_tree(home, tree, seq![s], hp, l)[k] == home[k],
{
    lemma_snap_single(home, tree, s, hp);
    assert(snap_all(home, tree, seq![s], hp) == snap_one(home, tree, rel));
}

/// Embedded-git pruning: after a snapshot of a directory spec, no
/// node under it that a `.git` directory shadows is in the tree, at
/// any depth.
pub proof fn lemma_git_pruned(
    home: Map<Seq<Seq<char>>, NodeV>,
    tree: Map<Seq<Seq<char>>, NodeV>,
    s: Seq<char>,
    hp: Seq<char>,
    rel: Seq<Seq<char>>,
    l: Seq<SymlinkEntryV>,
)
    requires
        spec_resolve(s, hp) == Some(rel),
        home.contains_key(rel),
        home[rel] is Dir,
        is_run_ledger(home, seq![s], hp, l),
    ensures
        forall|k: Seq<Seq<char>>|
            under(rel, k) && k != spec_metadata_rel() && #[trigger] snapshot_tree(
                home,
                tree,
                seq![s],
                hp,
                l,
            ).contains_key(k) ==> !git_pruned(
                rel.len() as int,
                k,
                snapshot_tree(home, tree, seq![s], hp, l)[k],
            ),
{
    lemma_snap_single(home, tree, s, hp);
    assert(snap_all(home, tree, seq![s], hp) == snap_one(home, tree, rel));
}

/// Round trip for a regular file: snapshot then restore reproduces a
/// file with exactly the same content at the same home-relative path,
/// whatever the destination held before.
pub proof fn lemma_file_round_trip(
    home: Map<Seq<Seq<char>>, NodeV>,
    tree: Map<Seq<Seq<char>>, NodeV>,
    dest: Map<Seq<Seq<char>>, NodeV>,
    s: Seq<char>,
    hp: Seq<char>,
    rel: Seq<Seq<char>>,
    c: Seq<u8>,
    l: Seq<SymlinkEntryV>,
)
    requires
        spec_resolve(s, hp) == Some(rel),
        home.contains_key(rel),
        home[rel] == (NodeV::File { content: c }),
        rel != spec_metadata_rel(),
        is_run_ledger(home, seq![s], hp, l),
    ensures
        l.len() == 0,
        spec_ledger_of_tree(snapshot_tree(home, tree, seq![s], hp, l)) == Some(
            Seq::<SymlinkEntryV>::empty(),
        ),
        ({
            let restored = replay_all(
                restore_all(snapshot_tree(home, tree, seq![s], hp, l), dest, seq![s], hp),
                hp,
                Seq::<SymlinkEntryV>::empty(),
            );
            restored.contains_key(rel) && restored[rel] == (NodeV::File { content: c })
        }),
{
    lemma_snap_single(home, tree, s, hp);
    lemma_restore_single(snapshot_tree(home, tree, seq![s], hp, l), dest, s, hp);
    if l.len() > 0 {
        assert(l.contains(l[0]));
        assert(ledger_member(home, seq![s], hp, l[0]));
        let p = choose|p: Seq<Seq<char>>|
            #[trigger] registered(home, seq![s], hp, p) && l[0] == ledger_entry(home, p);
        let w = choose|w: int|
            0 <= w < seq![s].len() && match #[trigger] spec_resolve(seq![s][w], hp) {
                Some(r0) => registered_by(home, r0, p),
                None => false,
            };
        assert(false);
    }
    let a = snap_all(home, tree, seq![s], hp);
    assert(a == snap_one(home, tree, rel));
    let t2 = snapshot_tree(home, tree, seq![s], hp, l);
    assert(t2 == a.remove(spec_metadata_rel()));
    assert(!t2.contains_key(spec_metadata_rel()));
    assert(t2.contains_key(rel));
    assert(t2[rel] == (NodeV::File { content: c }));
    let h1 = restore_all(t2, dest, seq![s], hp);
    assert(h1 == restore_one(t2, dest, rel));
    assert(h1.contains_key(rel));
    assert(h1[rel] == (NodeV::File { content: c }));
}

/// Round trip for a symbolic link: the restored entry is again a
/// link, not a copy of its target's content, and its recorded target
/// is resolved against the link's own parent directory under the home
/// path -- no working directory is involved.
pub proof fn lemma_symlink_round_trip(
    home: Map<Seq<Seq<char>>, NodeV>,
    tree: Map<Seq<Seq<char>>, NodeV>,
    dest: Map<Seq<Seq<char>>, NodeV>,
    s: Seq<char>,
    hp: Seq<char>,
    rel: Seq<Seq<char>>,
    t: Seq<char>,
    d: bool,
    l: Seq<SymlinkEntryV>,
)
    requires
        spec_resolve(s, hp) == Some(rel),
        home.contains_key(rel),
        home[rel] == (NodeV::Link { target: t, is_dir: d }),
        rel != spec_metadata_rel(),
        valid_keys(home),
        is_run_ledger(home, seq![s], hp, l),
    ensures
        l == seq![SymlinkEntryV { path: spec_join(rel), target: t, is_dir: d }],
        spec_ledger_of_tree(snapshot_tree(home, tree, seq![s], hp, l)) == Some(l),
        ({
            let restored = replay_all(
                restore_all(snapshot_tree(home, tree, seq![s], hp, l), dest, seq![s], hp),
                hp,
                l,
            );
            &&& restored.contains_key(rel)
            &&& restored[rel] == (NodeV::Link {
                target: spec_resolved_target(hp, rel, t),
                is_dir: d,
            })
        }),
{
    lemma_snap_single(home, tree, s, hp);
    lemma_restore_single(snapshot_tree(home, tree, seq![s], hp, l), dest, s, hp);
    assert(seq![s][0] == s);
    let e = SymlinkEntryV { path: spec_join(rel), target: t, is_dir: d };
    assert(registered_by(home, rel, rel));
    assert(registered(home, seq![s], hp, rel)) by {
        assert(spec_resolve(seq![s][0], hp) == Some(rel));
    }
    assert(ledger_entry(home, rel) == e);
    assert(ledger_member(home, seq![s], hp, e));
    assert(l.contains(e));
    assert forall|i: int| 0 <= i < l.len() implies l[i] == e by {
        assert(l.contains(l[i]));
        assert(ledger_member(home, seq![s], hp, l[i]));
        let p = choose|p: Seq<Seq<char>>|
            #[trigger] registered(home, seq![s], hp, p) && l[i] == ledger_entry(home, p);
        let w = choose|w: int|
            0 <= w < seq![s].len() && match #[trigger] spec_resolve(seq![s][w], hp) {
                Some(r0) => registered_by(home, r0, p),
                None => false,
            };
        assert(spec_resolve(seq![s][w], hp) == Some(rel));
        assert(registered_by(home, rel, p));
        assert(p == rel);
    }
    if l.len() == 0 {
        assert(!l.contains(e));
        assert(false);
    }
    if l.len() >= 2 {
        assert(l[0] == e && l[1] == e);
        assert(crate::text::lex_lt(l[0].path, l[1].path));
        assert(false);
    }
    assert(l =~= seq![e]);
    let a = snap_all(home, tree, seq![s], hp);
    assert(a == snap_one(home, tree, rel));
    assert(a == tree.remove_keys(subtree_set(rel)));
    let t2 = snapshot_tree(home, tree, seq![s], hp, l);
    let bytes = encode_utf8(spec_encode(l));
    assert(t2 == a.insert(spec_metadata_rel(), NodeV::File { content: bytes }));
    assert(t2.contains_key(spec_metadata_rel()));
    encode_utf8_valid_utf8(spec_encode(l));
    encode_utf8_decode_utf8(spec_encode(l));
    assert(decode_utf8(bytes) == spec_encode(l));
    crate::ledger::lemma_decode_encode(l);
    assert(spec_ledger_of_tree(t2) == Some(l));
    let h1 = restore_all(t2, dest, seq![s], hp);
    assert(!t2.contains_key(rel)) by {
        assert(under(rel, rel));
        assert(subtree_set(rel).contains(rel));
    }
    assert(h1 == dest);
    let restored = replay_all(h1, hp, l);
    assert(restored == replay_one(h1, hp, e)) by {
        assert(l[0] == e);
        assert(l.drop_first() =~= Seq::<SymlinkEntryV>::empty());
        assert(replay_all(replay_one(h1, hp, e), hp, Seq::<SymlinkEntryV>::empty())
            == replay_one(h1, hp, e));
    }
    assert(valid_key(rel));
    lemma_split_join(rel);
    assert(spec_split(e.path) == rel);
    assert(rel.len() > 0);
    assert(restored.contains_key(rel));
    assert(restored[rel] == (NodeV::Link { target: spec_resolved_target(hp, rel, t), is_dir: d }));
}

/// Two sorted ledgers with the same records are equal, so a run's
/// ledger -- and hence its encoded bytes -- is uniquely determined.
pub proof fn lemma_led_sorted_unique(l1: Seq<SymlinkEntryV>, l2: Seq<SymlinkEntryV>)
    requires
        led_sorted(l1),
        led_sorted(l2),
        forall|ev: SymlinkEntryV| l1.contains(ev) <==> l2.contains(ev),
    ensures
        l1 == l2,
    decreases l1.len(),
{
    if l1.len() == 0 {
        if l2.len() > 0 {
            assert(l2.contains(l2[0]));
            assert(l1.contains(l2[0]));
            let k = choose|k: int| 0 <= k < l1.len() && l1[k] == l2[0];
            assert(false);
        }
        assert(l1 =~= l2);
    } else if l2.len() == 0 {
        assert(l1.contains(l1[0]));
        assert(l2.contains(l1[0]));
        let k = choose|k: int| 0 <= k < l2.len() && l2[k] == l1[0];
        assert(false);
    } else {
        assert(l1.contains(l1[0]));
        assert(l2.contains(l1[0]));
        let j = choose|j: int| 0 <= j < l2.len() && l2[j] == l1[0];
        assert(l2.contains(l2[0]));
        assert(l1.contains(l2[0]));
        let k = choose|k: int| 0 <= k < l1.len() && l1[k] == l2[0];
        if j > 0 && k > 0 {
            assert(crate::text::lex_lt(l2[0].path, l2[j].path));
            assert(crate::text::lex_lt(l1[0].path, l1[k].path));
            crate::text::lemma_lex_antisymmetric(l1[0].path, l2[0].path);
            assert(false);
        }
        assert(l1[0] == l2[0]);
        let t1 = l1.drop_first();
        let t2 = l2.drop_first();
        assert forall|a: int, b: int|
            0 <= a < b < t1.len() implies crate::text::lex_lt(
            (#[trigger] t1[a]).path,
            (#[trigger] t1[b]).path,
        ) by {
            assert(t1[a] == l1[a + 1]);
            assert(t1[b] == l1[b + 1]);
        }
        assert forall|a: int, b: int|
            0 <= a < b < t2.len() implies crate::text::lex_lt(
            (#[trigger] t2[a]).path,
            (#[trigger] t2[b]).path,
        ) by {
            assert(t2[a] == l2[a + 1]);
            assert(t2[b] == l2[b + 1]);
        }
        assert forall|ev: SymlinkEntryV| t1.contains(ev) <==> t2.contains(ev) by {
            if t1.contains(ev) {
                let n = choose|n: int| 0 <= n < t1.len() && t1[n] == ev;
                assert(l1[n + 1] == ev);
                assert(l1.contains(ev));
                assert(l2.contains(ev));
                let m = choose|m: int| 0 <= m < l2.len() && l2[m] == ev;
                if m == 0 {
                    assert(ev == l1[0]);
                    assert(crate::text::lex_lt(l1[0].path, l1[n + 1].path));
                    assert(false);
                }
                assert(t2[m - 1] == ev);
                assert(t2.contains(ev));
            }
            if t2.contains(ev) {
                let n = choose|n: int| 0 <= n < t2.len() && t2[n] == ev;
                assert(l2[n + 1] == ev);
                assert(l2.contains(ev));
                assert(l1.contains(ev));
                let m = choose|m: int| 0 <= m < l1.len() && l1[m] == ev;
                if m == 0 {
                    assert(ev == l2[0]);
                    assert(crate::text::lex_lt(l2[0].path, l2[n + 1].path));
                    assert(false);
                }
                assert(t1[m - 1] == ev);
                assert(t1.contains(ev));
            }
        }
        lemma_led_sorted_unique(t1, t2);
        assert forall|a: int| 0 <= a < l1.len() implies l1[a] == l2[a] by {
            if a > 0 {
                assert(l1[a] == t1[a - 1]);
                assert(l2[a] == t2[a - 1]);
            }
        }
        assert(l1 =~= l2);
    }
}

/// The two maps look the same at `k`.
pub open spec fn agree_at(
    m1: Map<Seq<Seq<char>>, NodeV>,
    m2: Map<Seq<Seq<char>>, NodeV>,
    k: Seq<Seq<char>>,
) -> bool {
    (m1.contains_key(k) <==> m2.contains_key(k)) && (m1.contains_key(k) ==> m1[k] == m2[k])
}

/// One snapshot step either pins a key to a home-determined state in
/// both runs or leaves it as the incoming tree had it in both runs.
proof fn lemma_snap_step_cases(
    home: Map<Seq<Seq<char>>, NodeV>,
    t1: Map<Seq<Seq<char>>, NodeV>,
    t2: Map<Seq<Seq<char>>, NodeV>,
    s: Seq<char>,
    hp: Seq<char>,
)
    ensures
        forall|k: Seq<Seq<char>>|
            #![trigger snap_step(home, t1, s, hp).contains_key(k)]
            agree_at(snap_step(home, t1, s, hp), snap_step(home, t2, s, hp), k) || (agree_at(
                snap_step(home, t1, s, hp),
                t1,
                k,
            ) && agree_at(snap_step(home, t2, s, hp), t2, k)),
{
    assert forall|k: Seq<Seq<char>>|
        #![trigger snap_step(home, t1, s, hp).contains_key(k)]
        agree_at(snap_step(home, t1, s, hp), snap_step(home, t2, s, hp), k) || (agree_at(
            snap_step(home, t1, s, hp),
            t1,
            k,
        ) && agree_at(snap_step(home, t2, s, hp), t2, k)) by {
        match spec_resolve(s, hp) {
            None => {},
            Some(rel) => {
                if home.contains_key(rel) {
                    match home[rel] {
                        NodeV::Link { .. } => {
                            if under(rel, k) {
                                assert(subtree_set(rel).contains(k));
                            } else {
                                assert(!subtree_set(rel).contains(k));
                            }
                        },
                        NodeV::Dir => {},
                        NodeV::File { .. } => {
                            if under(rel, k) {
                                assert(subtree_set(rel).contains(k));
                            } else {
                                assert(!subtree_set(rel).contains(k));
                            }
                        },
                    }
                }
            },
        }
    }
}

/// The tree a run produces looks, at every key, either like a
/// home-determined state common to all runs or like the incoming tree.
proof fn lemma_snap_all_stable(
    home: Map<Seq<Seq<char>>, NodeV>,
    t1: Map<Seq<Seq<char>>, NodeV>,
    t2: Map<Seq<Seq<char>>, NodeV>,
    specs: Seq<Seq<char>>,
    hp: Seq<char>,
)
    ensures
        forall|k: Seq<Seq<char>>|
            #![trigger snap_all(home, t1, specs, hp).contains_key(k)]
            agree_at(snap_all(home, t1, specs, hp), snap_all(home, t2, specs, hp), k) || (agree_at(
                snap_all(home, t1, specs, hp),
                t1,
                k,
            ) && agree_at(snap_all(home, t2, specs, hp), t2, k)),
    decreases specs.len(),
{
    if specs.len() == 0 {
    } else {
        let s0 = specs[0];
        let u1 = snap_step(home, t1, s0, hp);
        let u2 = snap_step(home, t2, s0, hp);
        lemma_snap_step_cases(home, t1, t2, s0, hp);
        lemma_snap_all_stable(home, u1, u2, specs.drop_first(), hp);
        assert(snap_all(home, t1, specs, hp) == snap_all(home, u1, specs.drop_first(), hp));
        assert(snap_all(home, t2, specs, hp) == snap_all(home, u2, specs.drop_first(), hp));
        assert forall|k: Seq<Seq<char>>|
            #![trigger snap_all(home, t1, specs, hp).contains_key(k)]
            agree_at(snap_all(home, t1, specs, hp), snap_all(home, t2, specs, hp), k) || (agree_at(
                snap_all(home, t1, specs, hp),
                t1,
                k,
            ) && agree_at(snap_all(home, t2, specs, hp), t2, k)) by {
            let a1 = snap_all(home, u1, specs.drop_first(), hp);
            let a2 = snap_all(home, u2, specs.drop_first(), hp);
            assert(agree_at(a1, a2, k) || (agree_at(a1, u1, k) && agree_at(a2, u2, k)));
            assert(agree_at(u1, u2, k) || (agree_at(u1, t1, k) && agree_at(u2, t2, k)));
        }
    }
}

/// Idempotence: running a snapshot again, from the tree the first run
/// produced and with the home state unchanged, reproduces that tree
/// exactly; by `lemma_led_sorted_unique` the second ledger equals the
/// first as well, so tree content and ledger are both identical.
pub proof fn lemma_snapshot_idempotent(
    home: Map<Seq<Seq<char>>, NodeV>,
    tree: Map<Seq<Seq<char>>, NodeV>,
    specs: Seq<Seq<char>>,
    hp: Seq<char>,
    l1: Seq<SymlinkEntryV>,
    l2: Seq<SymlinkEntryV>,
)
    requires
        is_run_ledger(home, specs, hp, l1),
        is_run_ledger(home, specs, hp, l2),
    ensures
        l2 == l1,
        snapshot_tree(home, snapshot_tree(home, tree, specs, hp, l1), specs, hp, l2)
            == snapshot_tree(home, tree, specs, hp, l1),
{
    lemma_led_sorted_unique(l1, l2);
    assert(l2 == l1);
    let a1 = snap_all(home, tree, specs, hp);
    let t1 = snapshot_tree(home, tree, specs, hp, l1);
    let a2 = snap_all(home, t1, specs, hp);
    let t2 = snapshot_tree(home, t1, specs, hp, l1);
    lemma_snap_all_stable(home, t1, tree, specs, hp);
    let meta = spec_metadata_rel();
    assert forall|k: Seq<Seq<char>>| k != meta implies agree_at(t2, t1, k) by {
        assert(agree_at(t2, a2, k));
        assert(agree_at(t1, a1, k));
        assert(agree_at(a2, a1, k) || (agree_at(a2, t1, k) && agree_at(a1, tree, k)));
    }
    assert(agree_at(t2, t1, meta)) by {
        if l1.len() == 0 {
            assert(!t2.contains_key(meta));
            assert(!t1.contains_key(meta));
        } else {
            assert(t2.contains_key(meta));
            assert(t1.contains_key(meta));
            assert(t2[meta] == (NodeV::File { content: encode_utf8(spec_encode(l1)) }));
            assert(t1[meta] == t2[meta]);
        }
    }
    assert forall|k: Seq<Seq<char>>| t2.contains_key(k) == t1.contains_key(k) by {
        assert(agree_at(t2, t1, k));
    }
    assert forall|k: Seq<Seq<char>>| t2.contains_key(k) implies t2[k] == t1[k] by {
        assert(agree_at(t2, t1, k));
    }
    assert(t2 =~= t1);
}

/// One step never stores a literal node at a path whose home state is
/// a symbolic link, and removes any stale one inside its region.
proof fn lemma_step_no_link_literal(
    home: Map<Seq<Seq<char>>, NodeV>,
    tree: Map<Seq<Seq<char>>, NodeV>,
    s: Seq<char>,
    hp: Seq<char>,
    p: Seq<Seq<char>>,
)
    requires
        link_at(home, p),
    ensures
        snap_step(home, tree, s, hp).contains_key(p) ==> tree.contains_key(p),
        (match spec_resolve(s, hp) {
            Some(rel) => registered_by(home, rel, p),
            None => false,
        }) ==> !snap_step(home, tree, s, hp).contains_key(p),
{
    match spec_resolve(s, hp) {
        None => {},
        Some(rel) => {
            if home.contains_key(rel) {
                match home[rel] {
                    NodeV::Link { .. } => {
                        if under(rel, p) {
                            assert(subtree_set(rel).contains(p));
                        } else {
                            assert(!subtree_set(rel).contains(p));
                        }
                    },
                    NodeV::Dir => {
                        if under(rel, p) {
                            assert(home[p] is Link);
                            assert(!crate::fsmodel::copy_keep(
                                rel.len() as int,
                                p,
                                home[p],
                                true,
                                true,
                            ));
                        }
                    },
                    NodeV::File { .. } => {
                        if under(rel, p) {
                            assert(subtree_set(rel).contains(p));
                            if p == rel {
                                assert(!(home[rel] is Link));
                            }
                        } else {
                            assert(!subtree_set(rel).contains(p));
                        }
                    },
                }
            }
        },
    }
}

/// Ledger-tree disjointness: a path the run registers in the symlink
/// ledger is never a literal entry of the mirrored tree.
pub proof fn lemma_ledger_tree_disjoint(
    home: Map<Seq<Seq<char>>, NodeV>,
    tree: Map<Seq<Seq<char>>, NodeV>,
    specs: Seq<Seq<char>>,
    hp: Seq<char>,
)
    ensures
        forall|p: Seq<Seq<char>>|
            #[trigger] registered(home, specs, hp, p) ==> !snap_all(
                home,
                tree,
                specs,
                hp,
            ).contains_key(p),
    decreases specs.len(),
{
    if specs.len() == 0 {
        assert forall|p: Seq<Seq<char>>|
            #[trigger] registered(home, specs, hp, p) implies !snap_all(
            home,
            tree,
            specs,
            hp,
        ).contains_key(p) by {
            let w = choose|w: int|
                0 <= w < specs.len() && match #[trigger] spec_resolve(specs[w], hp) {
                    Some(rel) => registered_by(home, rel, p),
                    None => false,
                };
            assert(false);
        }
    } else {
        let s0 = specs[0];
        let rest = specs.drop_first();
        let u = snap_step(home, tree, s0, hp);
        lemma_ledger_tree_disjoint(home, u, rest, hp);
        assert(snap_all(home, tree, specs, hp) == snap_all(home, u, rest, hp));
        assert forall|p: Seq<Seq<char>>|
            #[trigger] registered(home, specs, hp, p) implies !snap_all(
            home,
            tree,
            specs,
            hp,
        ).contains_key(p) by {
            let w = choose|w: int|
                0 <= w < specs.len() && match #[trigger] spec_resolve(specs[w], hp) {
                    Some(rel) => registered_by(home, rel, p),
                    None => false,
                };
            assert(link_at(home, p)) by {
                match spec_resolve(specs[w], hp) {
                    Some(rel) => {
                        match home[rel] {
                            NodeV::Link { .. } => {},
                            NodeV::Dir => {},
                            NodeV::File { .. } => {},
                        }
                    },
                    None => {},
                }
            }
            if w == 0 {
                lemma_step_no_link_literal(home, tree, s0, hp, p);
                assert(!u.contains_key(p));
                lemma_stays_absent(home, u, rest, hp, p);
            } else {
                assert(rest[w - 1] == specs[w]);
                assert(registered(home, rest, hp, p)) by {
                    assert(spec_resolve(rest[w - 1], hp) == spec_resolve(specs[w], hp));
                }
            }
        }
    }
}

/// A path whose home state is a link and that is absent from the tree
/// stays absent through any further specs.
proof fn lemma_stays_absent(
    home: Map<Seq<Seq<char>>, NodeV>,
    tree: Map<Seq<Seq<char>>, NodeV>,
    specs: Seq<Seq<char>>,
    hp: Seq<char>,
    p: Seq<Seq<char>>,
)
    requires
        link_at(home, p),
        !tree.contains_key(p),
    ensures
        !snap_all(home, tree, specs, hp).contains_key(p),
    decreases specs.len(),
{
    if specs.len() == 0 {
    } else {
        let u = snap_step(home, tree, specs[0], hp);
        lemma_step_no_link_literal(home, tree, specs[0], hp, p);
        assert(!u.contains_key(p));
        lemma_stays_absent(home, u, specs.drop_first(), hp, p);
    }
}

} // verus!
