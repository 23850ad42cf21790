//! The restore engine.
//!
//! Given the configured path specs, the working tree and the home
//! root, a restore replays every resolved spec's region of the tree
//! back into the home root, then reads the symlink ledger (a missing
//! ledger file means no links) and recreates every recorded link,
//! resolving relative targets against the link's own parent directory,
//! never against a working directory.  A ledger file that is not a
//! canonical encoding fails the whole restore.

use vstd::prelude::*;

verus! {

use crate::fsmodel::Fs;
use crate::fsmodel::Node;
use crate::fsmodel::NodeV;
use crate::fsmodel::clone_node;
use crate::fsmodel::mirror;
use crate::fsmodel::subtree_set;
use crate::ledger::LedgerCorrupt;
use crate::ledger::SymlinkEntryV;
use crate::ledger::deserialize;
use crate::ledger::lemma_encode_decode;
use crate::ledger::lemma_decode_encode;
use crate::ledger::spec_decode;
use crate::ledger::spec_encode;
use crate::paths::join_components;
use crate::paths::lemma_join_snoc;
use crate::paths::metadata_path;
use crate::paths::resolve_spec;
use crate::paths::spec_join;
use crate::paths::spec_metadata_rel;
use crate::paths::spec_resolve;
use crate::paths::spec_split;
use crate::paths::split_components;
use crate::snapshot::PathOutcome;
use crate::snapshot::spec_outcome;
use vstd::string::StrSliceExecFns;
use vstd::string::StringExecFns;
use vstd::utf8::decode_utf8;
use vstd::utf8::valid_utf8;

/// The home effect of one resolved spec.
pub open spec fn restore_one(
    tree: Map<Seq<Seq<char>>, NodeV>,
    home: Map<Seq<Seq<char>>, NodeV>,
    rel: Seq<Seq<char>>,
) -> Map<Seq<Seq<char>>, NodeV> {
    if !tree.contains_key(rel) {
        home
    } else {
        match tree[rel] {
            NodeV::Dir => mirror(home, tree, rel, false, false),
            _ => home.remove_keys(subtree_set(rel)).insert(rel, tree[rel]),
        }
    }
}

/// The home effect of one spec string.
pub open spec fn restore_step(
    tree: Map<Seq<Seq<char>>, NodeV>,
    home: Map<Seq<Seq<char>>, NodeV>,
    s: Seq<char>,
    hp: Seq<char>,
) -> Map<Seq<Seq<char>>, NodeV> {
    match spec_resolve(s, hp) {
        None => home,
        Some(rel) => restore_one(tree, home, rel),
    }
}

/// The home after all specs, in order, before the ledger replay.
pub open spec fn restore_all(
    tree: Map<Seq<Seq<char>>, NodeV>,
    home: Map<Seq<Seq<char>>, NodeV>,
    specs: Seq<Seq<char>>,
    hp: Seq<char>,
) -> Map<Seq<Seq<char>>, NodeV>
    decreases specs.len(),
{
    if specs.len() == 0 {
        home
    } else {
        restore_all(tree, restore_step(tree, home, specs[0], hp), specs.drop_first(), hp)
    }
}

pub proof fn lemma_restore_all_snoc(
    tree: Map<Seq<Seq<char>>, NodeV>,
    home: Map<Seq<Seq<char>>, NodeV>,
    specs: Seq<Seq<char>>,
    x: Seq<char>,
    hp: Seq<char>,
)
    ensures
        restore_all(tree, home, specs.push(x), hp) == restore_step(
            tree,
            restore_all(tree, home, specs, hp),
            x,
            hp,
        ),
    decreases specs.len(),
{
    if specs.len() == 0 {
        let q = specs.push(x);
        assert(q[0] == x);
        assert(q.drop_first() =~= Seq::<Seq<char>>::empty());
        assert(restore_all(tree, restore_step(tree, home, x, hp), Seq::<Seq<char>>::empty(), hp)
            == restore_step(tree, home, x, hp));
    } else {
        let q = specs.push(x);
        assert(q[0] == specs[0]);
        assert(q.drop_first() =~= specs.drop_first().push(x));
        lemma_restore_all_snoc(
            tree,
            restore_step(tree, home, specs[0], hp),
            specs.drop_first(),
            x,
            hp,
        );
    }
}

/// The target string written into a recreated link: an absolute
/// recorded target verbatim, a relative one resolved against the
/// link's parent directory under the home path.
pub open spec fn spec_resolved_target(hp: Seq<char>, rel: Seq<Seq<char>>, t: Seq<char>) -> Seq<
    char,
> {
    if t.len() > 0 && t[0] == '/' {
        t
    } else {
        spec_join(seq![hp] + rel.drop_last()) + seq!['/'] + t
    }
}

/// The home effect of replaying one ledger record.
pub open spec fn replay_one(home: Map<Seq<Seq<char>>, NodeV>, hp: Seq<char>, e: SymlinkEntryV) -> Map<
    Seq<Seq<char>>,
    NodeV,
> {
    let rel = spec_split(e.path);
    if rel.len() == 0 {
        home
    } else {
        home.remove_keys(subtree_set(rel)).insert(
            rel,
            NodeV::Link { target: spec_resolved_target(hp, rel, e.target), is_dir: e.is_dir },
        )
    }
}

/// The home after replaying all records, in order.
pub open spec fn replay_all(
    home: Map<Seq<Seq<char>>, NodeV>,
    hp: Seq<char>,
    l: Seq<SymlinkEntryV>,
) -> Map<Seq<Seq<char>>, NodeV>
    decreases l.len(),
{
    if l.len() == 0 {
        home
    } else {
        replay_all(replay_one(home, hp, l[0]), hp, l.drop_first())
    }
}

pub proof fn lemma_replay_all_snoc(
    home: Map<Seq<Seq<char>>, NodeV>,
    hp: Seq<char>,
    l: Seq<SymlinkEntryV>,
    e: SymlinkEntryV,
)
    ensures
        replay_all(home, hp, l.push(e)) == replay_one(replay_all(home, hp, l), hp, e),
    decreases l.len(),
{
    if l.len() == 0 {
        let q = l.push(e);
        assert(q[0] == e);
        assert(q.drop_first() =~= Seq::<SymlinkEntryV>::empty());
        assert(replay_all(replay_one(home, hp, e), hp, Seq::<SymlinkEntryV>::empty())
            == replay_one(home, hp, e));
    } else {
        let q = l.push(e);
        assert(q[0] == l[0]);
        assert(q.drop_first() =~= l.drop_first().push(e));
        lemma_replay_all_snoc(replay_one(home, hp, l[0]), hp, l.drop_first(), e);
    }
}

/// The ledger a working tree holds: empty when the file is absent,
/// its decoded records when it is a canonically encoded file, and
/// nothing (corrupt) otherwise.
pub open spec fn spec_ledger_of_tree(tree: Map<Seq<Seq<char>>, NodeV>) -> Option<
    Seq<SymlinkEntryV>,
> {
    if !tree.contains_key(spec_metadata_rel()) {
        Some(Seq::empty())
    } else {
        match tree[spec_metadata_rel()] {
            NodeV::File { content } => if valid_utf8(content) {
                spec_decode(decode_utf8(content))
            } else {
                None
            },
            _ => None,
        }
    }
}

/// Relies on std's `str::from_utf8`: it succeeds exactly on valid
/// UTF-8 input and yields the characters the bytes encode.
#[verifier::external_body]
fn bytes_to_string(v: &[u8]) -> (r: Option<String>)
    ensures
        match r {
            Some(s) => valid_utf8(v@) && s@ == decode_utf8(v@),
            None => !valid_utf8(v@),
        },
{
    match std::str::from_utf8(v) {
        Ok(s) => Some(s.to_owned()),
        Err(_) => None,
    }
}

/// Builds the target string for a recreated link.
pub fn resolved_target(home_path: &str, rel: &Vec<String>, target: &str) -> (r: String)
    requires
        rel@.len() > 0,
    ensures
        r@ == spec_resolved_target(home_path@, rel.deep_view(), target@),
{
    proof {
        reveal_strlit("/");
    }
    let tlen = target.unicode_len();
    if tlen > 0 && target.get_char(0) == '/' {
        return target.to_owned();
    }
    let mut r = home_path.to_owned();
    let ghost base: Seq<Seq<char>> = seq![home_path@];
    proof {
        assert(r@ == spec_join(base));
    }
    let mut i: usize = 0;
    while i < rel.len() - 1
        invariant
            0 <= i <= rel@.len() - 1,
            r@ == spec_join(base + rel.deep_view().subrange(0, i as int)),
            base == seq![home_path@],
        decreases rel@.len() - i,
    {
        r.append("/");
        r.append(rel[i].as_str());
        proof {
            reveal_strlit("/");
            assert("/"@ =~= seq!['/']);
            lemma_join_snoc(base + rel.deep_view().subrange(0, i as int), rel.deep_view()[i as int]);
            assert((base + rel.deep_view().subrange(0, i as int)).push(rel.deep_view()[i as int])
                =~= base + rel.deep_view().subrange(0, i as int + 1));
        }
        i += 1;
    }
    r.append("/");
    r.append(target);
    proof {
        assert("/"@ =~= seq!['/']);
        assert(rel.deep_view().subrange(0, rel.deep_view().len() - 1) =~= rel.deep_view()
            .drop_last());
        assert(r@ =~= spec_join(seq![home_path@] + rel.deep_view().drop_last()) + seq!['/']
            + target@);
    }
    r
}

/// The result of a successful restore run.
pub struct RestoreResult {
    /// The new home root, ledger links replayed.
    pub home: Fs,
    /// One outcome per configured spec, in order.
    pub outcomes: Vec<PathOutcome>,
}

/// Replays the working tree's state of every resolved spec into the
/// home root, then recreates every ledger link.  A ledger file that
/// is not a canonical encoding fails the whole restore.
pub fn restore(specs: &Vec<String>, home_path: &str, tree: &Fs, home: Fs) -> (r: Result<
    RestoreResult,
    LedgerCorrupt,
>)
    requires
        tree.wf(),
        home.wf(),
    ensures
        match r {
            Ok(res) => {
                &&& res.home.wf()
                &&& (match spec_ledger_of_tree(tree@) {
                    Some(l) => res.home@ == replay_all(
                        restore_all(tree@, home@, specs.deep_view(), home_path@),
                        home_path@,
                        l,
                    ),
                    None => false,
                })
                &&& res.outcomes@.len() == specs@.len()
                &&& (forall|i: int|
                    0 <= i < specs@.len() ==> res.outcomes@[i] == spec_outcome(
                        tree@,
                        specs.deep_view()[i],
                        home_path@,
                    ))
            },
            Err(_) => spec_ledger_of_tree(tree@) is None,
        },
{
    let ghost sdv = specs.deep_view();
    let ghost hp = home_path@;
    let ghost tm = tree@;
    let ghost home0 = home@;
    let mut home = home;
    let mut outcomes: Vec<PathOutcome> = Vec::new();
    let mut i: usize = 0;
    proof {
        assert(sdv.subrange(0, 0) =~= Seq::<Seq<char>>::empty());
    }
    while i < specs.len()
        invariant
            0 <= i <= specs@.len(),
            sdv == specs.deep_view(),
            sdv.len() == specs@.len(),
            hp == home_path@,
            tm == tree@,
            tree.wf(),
            home.wf(),
            home@ == restore_all(tm, home0, sdv.subrange(0, i as int), hp),
            outcomes@.len() == i,
            forall|j: int| 0 <= j < i ==> outcomes@[j] == spec_outcome(tm, sdv[j], hp),
        decreases specs@.len() - i,
    {
        let ghost pre_specs = sdv.subrange(0, i as int);
        let ghost cur_specs = sdv.subrange(0, i as int + 1);
        proof {
            assert(pre_specs.push(sdv[i as int]) =~= cur_specs);
            lemma_restore_all_snoc(tm, home0, pre_specs, sdv[i as int], hp);
            assert(specs@[i as int]@ == sdv[i as int]);
        }
        let resolved = resolve_spec(specs[i].as_str(), home_path);
        match resolved {
            None => {
                outcomes.push(PathOutcome::OutsideHome);
                proof {
                    assert(spec_resolve(sdv[i as int], hp) is None);
                    assert(home@ == restore_all(tm, home0, cur_specs, hp));
                }
            },
            Some(rel) => {
                let ghost reld = rel.deep_view();
                proof {
                    assert(Some(reld) == spec_resolve(sdv[i as int], hp));
                }
                let found = tree.lookup(&rel);
                match found {
                    None => {
                        outcomes.push(PathOutcome::Missing);
                        proof {
                            assert(!tm.contains_key(reld));
                            assert(home@ == restore_all(tm, home0, cur_specs, hp));
                        }
                    },
                    Some(node) => {
                        outcomes.push(PathOutcome::Applied);
                        proof {
                            assert(tm.contains_key(reld));
                            assert(node@ == tm[reld]);
                        }
                        match node {
                            Node::Dir => {
                                home.copy_under(tree, &rel, false, false);
                                proof {
                                    assert(home@ == restore_all(tm, home0, cur_specs, hp));
                                }
                            },
                            _ => {
                                home.remove_subtree(&rel);
                                let copied = clone_node(node);
                                home.set_node(&rel, copied);
                                proof {
                                    assert(home@ == restore_all(tm, home0, cur_specs, hp));
                                }
                            },
                        }
                    },
                }
            },
        }
        i += 1;
    }
    proof {
        assert(sdv.subrange(0, sdv.len() as int) =~= sdv);
    }
    let ghost base_home = home@;
    let meta = metadata_path();
    let found = tree.lookup(&meta);
    match found {
        None => {
            proof {
                assert(spec_ledger_of_tree(tm) == Some(Seq::<SymlinkEntryV>::empty()));
            }
            Ok(RestoreResult { home, outcomes })
        },
        Some(node) => {
            match node {
                Node::File { content } => {
                    let text = bytes_to_string(content.as_slice());
                    match text {
                        None => {
                            proof {
                                assert(spec_ledger_of_tree(tm) is None);
                            }
                            Err(LedgerCorrupt)
                        },
                        Some(text) => {
                            let parsed = deserialize(text.as_str());
                            match parsed {
                                Err(e) => {
                                    proof {
                                        if spec_decode(text@) is Some {
                                            let l = spec_decode(text@)->Some_0;
                                            lemma_encode_decode(text@);
                                            assert(text@ == spec_encode(l));
                                            assert(false);
                                        }
                                        assert(spec_ledger_of_tree(tm) is None);
                                    }
                                    Err(e)
                                },
                                Ok(entries) => {
                                    let ghost ldv = entries.deep_view();
                                    proof {
                                        assert(text@ == spec_encode(ldv));
                                        lemma_decode_encode(ldv);
                                        assert(spec_ledger_of_tree(tm) == Some(ldv));
                                        assert(ldv.subrange(0, 0) =~= Seq::<SymlinkEntryV>::empty());
                                    }
                                    let mut j: usize = 0;
                                    while j < entries.len()
                                        invariant
                                            0 <= j <= entries@.len(),
                                            ldv == entries.deep_view(),
                                            ldv.len() == entries@.len(),
                                            hp == home_path@,
                                            home.wf(),
                                            home@ == replay_all(
                                                base_home,
                                                hp,
                                                ldv.subrange(0, j as int),
                                            ),
                                        decreases entries@.len() - j,
                                    {
                                        let ghost pre_l = ldv.subrange(0, j as int);
                                        proof {
                                            assert(pre_l.push(ldv[j as int]) =~= ldv.subrange(
                                                0,
                                                j as int + 1,
                                            ));
                                            lemma_replay_all_snoc(base_home, hp, pre_l, ldv[j as int]);
                                            assert(entries@[j as int]@ == ldv[j as int]);
                                        }
                                        let rel = split_components(entries[j].path.as_str());
                                        proof {
                                            assert(rel.deep_view() == spec_split(
                                                ldv[j as int].path,
                                            ));
                                        }
                                        if rel.len() > 0 {
                                            home.remove_subtree(&rel);
                                            let t = resolved_target(
                                                home_path,
                                                &rel,
                                                entries[j].target.as_str(),
                                            );
                                            proof {
                                                assert(rel.deep_view().len() > 0);
                                            }
                                            home.set_node(
                                                &rel,
                                                Node::Link { target: t, is_dir: entries[j].is_dir },
                                            );
                                            proof {
                                                assert(home@ == replay_all(
                                                    base_home,
                                                    hp,
                                                    ldv.subrange(0, j as int + 1),
                                                ));
                                            }
                                        } else {
                                            proof {
                                                assert(home@ == replay_all(
                                                    base_home,
                                                    hp,
                                                    ldv.subrange(0, j as int + 1),
                                                ));
                                            }
                                        }
                                        j += 1;
                                    }
                                    proof {
                                        assert(ldv.subrange(0, ldv.len() as int) =~= ldv);
                                    }
                                    Ok(RestoreResult { home, outcomes })
                                },
                            }
                        },
                    }
                },
                _ => {
                    proof {
                        assert(spec_ledger_of_tree(tm) is None);
                    }
                    Err(LedgerCorrupt)
                },
            }
        },
    }
}

} // verus!
