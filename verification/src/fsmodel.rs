//! An explicit model of a filesystem root.
//!
//! Both engines work on two such roots -- the home directory and the
//! repository working tree -- passed in as values.  A root is a finite
//! map from home-relative component paths to nodes: regular files with
//! their bytes, directories, and symbolic links with their literal
//! target.  The surrounding program reads a real directory into this
//! shape and writes the result back; every decision in between is made
//! here and verified.

use vstd::prelude::*;

verus! {

use crate::paths::rel_eq;
use crate::paths::rel_prefix;
use crate::strset::copy_strings;
use crate::text::str_eq;
use vstd::string::StringExecFns;

/// One filesystem object.
#[derive(Debug, PartialEq)]
pub enum Node {
    /// A regular file and its content.
    File { content: Vec<u8> },
    /// A directory.
    Dir,
    /// A symbolic link with its literal, unresolved target; `is_dir`
    /// records whether the link currently resolves to a directory.
    Link { target: String, is_dir: bool },
}

/// The mathematical image of a `Node`.
#[verifier::ext_equal]
pub ghost enum NodeV {
    File { content: Seq<u8> },
    Dir,
    Link { target: Seq<char>, is_dir: bool },
}

impl View for Node {
    type V = NodeV;

    open spec fn view(&self) -> NodeV {
        match self {
            Node::File { content } => NodeV::File { content: content@ },
            Node::Dir => NodeV::Dir,
            Node::Link { target, is_dir } => NodeV::Link { target: target@, is_dir: *is_dir },
        }
    }
}

/// A path/node pair of a filesystem root.
#[derive(Debug, PartialEq)]
pub struct FsEntry {
    pub path: Vec<String>,
    pub node: Node,
}

/// A filesystem root: a finite path-to-node map.
pub struct Fs {
    entries: Vec<FsEntry>,
}

/// `k` lies at or below `root`.
pub open spec fn under(root: Seq<Seq<char>>, k: Seq<Seq<char>>) -> bool {
    root.is_prefix_of(k)
}

/// All paths at or below `root`.
pub open spec fn subtree_set(root: Seq<Seq<char>>) -> Set<Seq<Seq<char>>> {
    Set::new(|k: Seq<Seq<char>>| under(root, k))
}

/// Some entry of `s` carries the path `k`.
pub open spec fn has_path(s: Seq<FsEntry>, k: Seq<Seq<char>>) -> bool {
    exists|i: int| 0 <= i < s.len() && (#[trigger] s[i]).path.deep_view() == k
}

/// The index of the entry carrying `k`.
pub open spec fn idx_of(s: Seq<FsEntry>, k: Seq<Seq<char>>) -> int {
    choose|i: int| 0 <= i < s.len() && (#[trigger] s[i]).path.deep_view() == k
}

/// No two entries share a path, and no path is empty.
pub open spec fn entries_ok(s: Seq<FsEntry>) -> bool {
    &&& forall|i: int, j: int|
        0 <= i < j < s.len() ==> (#[trigger] s[i]).path.deep_view() != (
        #[trigger] s[j]).path.deep_view()
    &&& forall|i: int| 0 <= i < s.len() ==> (#[trigger] s[i]).path@.len() > 0
}

/// With distinct paths, the entry found for `s[i]`'s own path is `s[i]`.
proof fn lemma_at(s: Seq<FsEntry>, i: int)
    requires
        entries_ok(s),
        0 <= i < s.len(),
    ensures
        has_path(s, s[i].path.deep_view()),
        idx_of(s, s[i].path.deep_view()) == i,
{
    let k = s[i].path.deep_view();
    assert(has_path(s, k));
    let j = idx_of(s, k);
    if j != i {
        if j < i {
            assert(s[j].path.deep_view() != s[i].path.deep_view());
        } else {
            assert(s[i].path.deep_view() != s[j].path.deep_view());
        }
    }
}

impl View for Fs {
    type V = Map<Seq<Seq<char>>, NodeV>;

    closed spec fn view(&self) -> Map<Seq<Seq<char>>, NodeV> {
        Map::new(
            |k: Seq<Seq<char>>| has_path(self.entries@, k),
            |k: Seq<Seq<char>>| self.entries@[idx_of(self.entries@, k)].node@,
        )
    }
}

impl Fs {
    /// Internal representation invariant: distinct, non-empty paths.
    pub closed spec fn wf(&self) -> bool {
        entries_ok(self.entries@)
    }

    /// An empty filesystem root.
    pub fn new() -> (r: Fs)
        ensures
            r.wf(),
            r@ == Map::<Seq<Seq<char>>, NodeV>::empty(),
    {
        let r = Fs { entries: Vec::new() };
        proof {
            assert(r@ =~= Map::<Seq<Seq<char>>, NodeV>::empty());
        }
        r
    }

    /// The node stored at `p`, if any.
    pub fn lookup(&self, p: &Vec<String>) -> (r: Option<&Node>)
        requires
            self.wf(),
        ensures
            match r {
                Some(n) => self@.contains_key(p.deep_view()) && n@ == self@[p.deep_view()],
                None => !self@.contains_key(p.deep_view()),
            },
    {
        let mut i: usize = 0;
        while i < self.entries.len()
            invariant
                0 <= i <= self.entries@.len(),
                self.wf(),
                forall|j: int|
                    0 <= j < i ==> (#[trigger] self.entries@[j]).path.deep_view() != p.deep_view(),
            decreases self.entries@.len() - i,
        {
            if rel_eq(&self.entries[i].path, p) {
                proof {
                    lemma_at(self.entries@, i as int);
                }
                return Some(&self.entries[i].node);
            }
            i += 1;
        }
        proof {
            if self@.contains_key(p.deep_view()) {
                let j = idx_of(self.entries@, p.deep_view());
                assert(self.entries@[j].path.deep_view() == p.deep_view());
                assert(false);
            }
        }
        None
    }

    /// Removes the node at exactly `p`, if present.
    pub fn remove_path(&mut self, p: &Vec<String>)
        requires
            old(self).wf(),
        ensures
            final(self).wf(),
            final(self)@ == old(self)@.remove(p.deep_view()),
    {
        let ghost s = self.entries@;
        let ghost pd = p.deep_view();
        let mut i: usize = 0;
        while i < self.entries.len()
            invariant
                0 <= i <= self.entries@.len(),
                self.entries@ == s,
                old(self).entries@ == s,
                entries_ok(s),
                forall|j: int| 0 <= j < i ==> (#[trigger] s[j]).path.deep_view() != pd,
                pd == p.deep_view(),
            decreases self.entries@.len() - i,
        {
            if rel_eq(&self.entries[i].path, p) {
                self.entries.remove(i);
                proof {
                    let s2 = self.entries@;
                    assert(s2 == s.remove(i as int));
                    assert forall|a: int, b: int|
                        0 <= a < b < s2.len() implies (#[trigger] s2[a]).path.deep_view() != (
                    #[trigger] s2[b]).path.deep_view() by {
                        let a0 = if a < i { a } else { a + 1 };
                        let b0 = if b < i { b } else { b + 1 };
                        assert(s2[a] == s[a0]);
                        assert(s2[b] == s[b0]);
                    }
                    assert forall|a: int| 0 <= a < s2.len() implies (
                    #[trigger] s2[a]).path@.len() > 0 by {
                        let a0 = if a < i { a } else { a + 1 };
                        assert(s2[a] == s[a0]);
                    }
                    assert(entries_ok(s2));
                    assert forall|k: Seq<Seq<char>>| #[trigger]
                        has_path(s2, k) == (has_path(s, k) && k != pd) by {
                        if has_path(s2, k) {
                            let a = choose|a: int|
                                0 <= a < s2.len() && (#[trigger] s2[a]).path.deep_view() == k;
                            let a0 = if a < i { a } else { a + 1 };
                            assert(s2[a] == s[a0]);
                            assert(s[a0].path.deep_view() == k);
                            assert(has_path(s, k));
                            if k == pd {
                                assert(s[i as int].path.deep_view() == pd);
                                if a0 < i {
                                    assert(s[a0].path.deep_view() != s[i as int].path.deep_view());
                                } else {
                                    assert(s[i as int].path.deep_view() != s[a0].path.deep_view());
                                }
                            }
                        }
                        if has_path(s, k) && k != pd {
                            let a0 = choose|a0: int|
                                0 <= a0 < s.len() && (#[trigger] s[a0]).path.deep_view() == k;
                            assert(a0 != i);
                            let a = if a0 < i {
                                a0
                            } else {
                                a0 - 1
                            };
                            assert(s2[a] == s[a0]);
                            assert(has_path(s2, k));
                        }
                    }
                    assert forall|k: Seq<Seq<char>>|
                        has_path(s2, k) implies #[trigger] s2[idx_of(s2, k)].node@ == s[idx_of(
                        s,
                        k,
                    )].node@ by {
                        let a = idx_of(s2, k);
                        assert(0 <= a < s2.len() && s2[a].path.deep_view() == k);
                        let a0 = if a < i { a } else { a + 1 };
                        assert(s2[a] == s[a0]);
                        lemma_at(s, a0);
                    }
                    assert forall|k: Seq<Seq<char>>|
                        self@.contains_key(k) == old(self)@.remove(pd).contains_key(k) by {
                        assert(self@.contains_key(k) == has_path(s2, k));
                        assert(old(self)@.contains_key(k) == has_path(s, k));
                        assert(has_path(s2, k) == (has_path(s, k) && k != pd));
                    }
                    assert forall|k: Seq<Seq<char>>|
                        self@.contains_key(k) implies self@[k] == old(self)@.remove(pd)[k] by {
                        assert(has_path(s2, k));
                        assert(self@[k] == s2[idx_of(s2, k)].node@);
                        assert(old(self)@[k] == s[idx_of(s, k)].node@);
                        assert(s2[idx_of(s2, k)].node@ == s[idx_of(s, k)].node@);
                    }
                    assert(self@ =~= old(self)@.remove(pd));
                }
                return ;
            }
            i += 1;
        }
        proof {
            if has_path(s, pd) {
                let j = idx_of(s, pd);
                assert(s[j].path.deep_view() == pd);
                assert(false);
            }
            assert(self@ =~= old(self)@.remove(pd));
        }
    }

    /// Stores `n` at `p`, replacing any previous node there.
    pub fn set_node(&mut self, p: &Vec<String>, n: Node)
        requires
            old(self).wf(),
            p@.len() > 0,
        ensures
            final(self).wf(),
            final(self)@ == old(self)@.insert(p.deep_view(), n@),
    {
        let ghost pd = p.deep_view();
        self.remove_path(p);
        let ghost s1 = self.entries@;
        let ghost m1 = self@;
        proof {
            if has_path(s1, pd) {
                let j = idx_of(s1, pd);
                assert(s1[j].path.deep_view() == pd);
                assert(m1.contains_key(pd));
                assert(false);
            }
        }
        let ghost nv = n@;
        let entry = FsEntry { path: copy_strings(p), node: n };
        proof {
            assert(entry.path.deep_view() == pd);
        }
        self.entries.push(entry);
        proof {
            let s2 = self.entries@;
            assert(s2 == s1.push(entry));
            assert forall|a: int, b: int|
                0 <= a < b < s2.len() implies (#[trigger] s2[a]).path.deep_view() != (
            #[trigger] s2[b]).path.deep_view() by {
                if b == s1.len() {
                    assert(s2[a] == s1[a]);
                    if s1[a].path.deep_view() == pd {
                        assert(has_path(s1, pd));
                    }
                } else {
                    assert(s2[a] == s1[a]);
                    assert(s2[b] == s1[b]);
                }
            }
            assert forall|a: int| 0 <= a < s2.len() implies (#[trigger] s2[a]).path@.len() > 0 by {
                if a < s1.len() {
                    assert(s2[a] == s1[a]);
                } else {
                    assert(s2[a] == entry);
                    assert(entry.path@.len() == p@.len());
                }
            }
            assert(entries_ok(s2));
            assert forall|k: Seq<Seq<char>>| #[trigger]
                has_path(s2, k) == (has_path(s1, k) || k == pd) by {
                if has_path(s2, k) {
                    let a = choose|a: int|
                        0 <= a < s2.len() && (#[trigger] s2[a]).path.deep_view() == k;
                    if a < s1.len() {
                        assert(s1[a].path.deep_view() == k);
                        assert(has_path(s1, k));
                    } else {
                        assert(s2[a] == entry);
                    }
                }
                if has_path(s1, k) {
                    let a = choose|a: int|
                        0 <= a < s1.len() && (#[trigger] s1[a]).path.deep_view() == k;
                    assert(s2[a] == s1[a]);
                    assert(has_path(s2, k));
                }
                if k == pd {
                    assert(s2[s1.len() as int] == entry);
                    assert(has_path(s2, k));
                }
            }
            assert forall|k: Seq<Seq<char>>|
                has_path(s2, k) && k != pd implies #[trigger] s2[idx_of(s2, k)].node@ == s1[idx_of(
                s1,
                k,
            )].node@ by {
                let a = idx_of(s2, k);
                assert(0 <= a < s2.len() && s2[a].path.deep_view() == k);
                assert(a < s1.len());
                assert(s2[a] == s1[a]);
                lemma_at(s1, a);
            }
            assert(s2[idx_of(s2, pd)].node@ == nv) by {
                lemma_at(s2, s1.len() as int);
            }
            assert(self@ =~= m1.insert(pd, nv));
            assert(self@ =~= old(self)@.insert(pd, nv));
        }
    }

    /// Removes every node at or below `root`.
    pub fn remove_subtree(&mut self, root: &Vec<String>)
        requires
            old(self).wf(),
        ensures
            final(self).wf(),
            final(self)@ == old(self)@.remove_keys(subtree_set(root.deep_view())),
    {
        let ghost s = self.entries@;
        let ghost rootd = root.deep_view();
        let ghost mut t: int = 0;
        let mut keep: Vec<FsEntry> = Vec::new();
        while self.entries.len() > 0
            invariant
                0 <= t <= s.len(),
                self.entries@ == s.subrange(t, s.len() as int),
                old(self).entries@ == s,
                entries_ok(s),
                rootd == root.deep_view(),
                entries_ok(keep@),
                forall|k: Seq<Seq<char>>| #[trigger]
                    has_path(keep@, k) == (has_path(s.subrange(0, t), k) && !under(rootd, k)),
                forall|a: int|
                    0 <= a < keep@.len() ==> exists|j: int|
                        0 <= j < t && #[trigger] keep@[a] == s[j],
            decreases self.entries@.len(),
        {
            let e = self.entries.remove(0);
            proof {
                assert(e == s.subrange(t, s.len() as int)[0]);
                assert(e == s[t]);
                assert(self.entries@ =~= s.subrange(t + 1, s.len() as int));
            }
            let ghost pd = e.path.deep_view();
            let ghost pre = keep@;
            if !rel_prefix(root, &e.path) {
                keep.push(e);
                proof {
                    assert forall|a: int, b: int|
                        0 <= a < b < keep@.len() implies (#[trigger] keep@[a]).path.deep_view() != (
                    #[trigger] keep@[b]).path.deep_view() by {
                        if b == pre.len() {
                            assert(keep@[a] == pre[a]);
                            let j = choose|j: int| 0 <= j < t && pre[a] == s[j];
                            assert(s[j].path.deep_view() != s[t].path.deep_view());
                        } else {
                            assert(keep@[a] == pre[a]);
                            assert(keep@[b] == pre[b]);
                        }
                    }
                    assert forall|a: int|
                        0 <= a < keep@.len() implies (#[trigger] keep@[a]).path@.len() > 0 by {
                        if a < pre.len() {
                            assert(keep@[a] == pre[a]);
                        } else {
                            assert(keep@[a] == s[t]);
                        }
                    }
                    assert forall|k: Seq<Seq<char>>| #[trigger]
                        has_path(keep@, k) == (has_path(s.subrange(0, t + 1), k) && !under(
                        rootd,
                        k,
                    )) by {
                        let pr = s.subrange(0, t);
                        let cur = s.subrange(0, t + 1);
                        assert(pr.push(s[t]) =~= cur);
                        if has_path(keep@, k) {
                            let a = choose|a: int|
                                0 <= a < keep@.len() && (#[trigger] keep@[a]).path.deep_view() == k;
                            if a < pre.len() {
                                assert(pre[a].path.deep_view() == k);
                                assert(has_path(pre, k));
                                let j = choose|j: int|
                                    0 <= j < pr.len() && (#[trigger] pr[j]).path.deep_view() == k;
                                assert(cur[j].path.deep_view() == k);
                                assert(has_path(cur, k));
                            } else {
                                assert(keep@[a] == s[t]);
                                assert(cur[t].path.deep_view() == k);
                                assert(has_path(cur, k));
                                assert(!under(rootd, k));
                            }
                        }
                        if has_path(cur, k) && !under(rootd, k) {
                            let j = choose|j: int|
                                0 <= j < cur.len() && (#[trigger] cur[j]).path.deep_view() == k;
                            if j < t {
                                assert(pr[j].path.deep_view() == k);
                                assert(has_path(pr, k));
                                assert(has_path(pre, k));
                                let a = choose|a: int|
                                    0 <= a < pre.len() && (#[trigger] pre[a]).path.deep_view() == k;
                                assert(keep@[a] == pre[a]);
                                assert(has_path(keep@, k));
                            } else {
                                assert(cur[j] == s[t]);
                                assert(keep@[pre.len() as int] == s[t]);
                                assert(has_path(keep@, k));
                            }
                        }
                    }
                    assert forall|a: int|
                        0 <= a < keep@.len() implies exists|j: int|
                            0 <= j < t + 1 && #[trigger] keep@[a] == s[j] by {
                        if a < pre.len() {
                            assert(keep@[a] == pre[a]);
                            let j = choose|j: int| 0 <= j < t && pre[a] == s[j];
                            assert(keep@[a] == s[j]);
                        } else {
                            assert(keep@[a] == s[t]);
                        }
                    }
                    t = t + 1;
                }
            } else {
                proof {
                    assert(under(rootd, pd));
                    assert forall|k: Seq<Seq<char>>| #[trigger]
                        has_path(keep@, k) == (has_path(s.subrange(0, t + 1), k) && !under(
                        rootd,
                        k,
                    )) by {
                        let pr = s.subrange(0, t);
                        let cur = s.subrange(0, t + 1);
                        assert(pr.push(s[t]) =~= cur);
                        if has_path(keep@, k) {
                            let a = choose|a: int|
                                0 <= a < keep@.len() && (#[trigger] keep@[a]).path.deep_view() == k;
                            assert(has_path(pr, k));
                            let j = choose|j: int|
                                0 <= j < pr.len() && (#[trigger] pr[j]).path.deep_view() == k;
                            assert(cur[j].path.deep_view() == k);
                            assert(has_path(cur, k));
                        }
                        if has_path(cur, k) && !under(rootd, k) {
                            let j = choose|j: int|
                                0 <= j < cur.len() && (#[trigger] cur[j]).path.deep_view() == k;
                            if j < t {
                                assert(pr[j].path.deep_view() == k);
                                assert(has_path(pr, k));
                            } else {
                                assert(cur[j] == s[t]);
                                assert(k == pd);
                                assert(false);
                            }
                        }
                    }
                    t = t + 1;
                }
            }
        }
        proof {
            assert(s.subrange(t, s.len() as int).len() == 0);
            assert(t == s.len());
        }
        self.entries = keep;
        proof {
            let kp = self.entries@;
            assert(s.subrange(0, s.len() as int) =~= s);
            assert forall|k: Seq<Seq<char>>|
                self@.contains_key(k) == old(self)@.remove_keys(
                    subtree_set(rootd),
                ).contains_key(k) by {
                assert(has_path(kp, k) == (has_path(s, k) && !under(rootd, k)));
            }
            assert forall|k: Seq<Seq<char>>|
                self@.contains_key(k) implies self@[k] == old(self)@.remove_keys(
                subtree_set(rootd),
            )[k] by {
                let a = idx_of(kp, k);
                assert(0 <= a < kp.len() && kp[a].path.deep_view() == k);
                let j = choose|j: int| 0 <= j < s.len() && #[trigger] kp[a] == s[j];
                lemma_at(s, j);
                assert(self@[k] == kp[a].node@);
                assert(old(self)@[k] == s[idx_of(s, k)].node@);
            }
            assert(self@ =~= old(self)@.remove_keys(subtree_set(rootd)));
        }
    }
}

/// A component found at or below position `rootlen - 1` is named
/// `.git`; such a subtree is pruned from a snapshot copy.  The last
/// component only counts when the node is a directory.
pub open spec fn git_pruned(rootlen: int, k: Seq<Seq<char>>, n: NodeV) -> bool {
    exists|c: int|
        0 <= c && rootlen - 1 <= c && c < k.len() && #[trigger] k[c] == ".git"@ && (c < k.len() - 1
            || n is Dir)
}

/// Whether a mirror copy carries the node at `k` over.
pub open spec fn copy_keep(
    rootlen: int,
    k: Seq<Seq<char>>,
    n: NodeV,
    skip_links: bool,
    skip_git: bool,
) -> bool {
    (!skip_links || !(n is Link)) && (!skip_git || !git_pruned(rootlen, k, n))
}

/// The result of mirroring `src`'s subtree at `root` into `tree`:
/// outside the subtree `tree` is kept; inside it, exactly the kept
/// nodes of `src` remain.
pub open spec fn mirror(
    tree: Map<Seq<Seq<char>>, NodeV>,
    src: Map<Seq<Seq<char>>, NodeV>,
    root: Seq<Seq<char>>,
    skip_links: bool,
    skip_git: bool,
) -> Map<Seq<Seq<char>>, NodeV> {
    Map::new(
        |k: Seq<Seq<char>>|
            if under(root, k) {
                src.contains_key(k) && copy_keep(root.len() as int, k, src[k], skip_links, skip_git)
            } else {
                tree.contains_key(k)
            },
        |k: Seq<Seq<char>>|
            if under(root, k) {
                src[k]
            } else {
                tree[k]
            },
    )
}

/// Copies a node.
pub fn clone_node(n: &Node) -> (r: Node)
    ensures
        r@ == n@,
{
    match n {
        Node::File { content } => {
            let mut c: Vec<u8> = Vec::new();
            let mut i: usize = 0;
            while i < content.len()
                invariant
                    0 <= i <= content@.len(),
                    c@ == content@.subrange(0, i as int),
                decreases content@.len() - i,
            {
                c.push(content[i]);
                proof {
                    assert(c@ =~= content@.subrange(0, i as int + 1));
                }
                i += 1;
            }
            proof {
                assert(content@.subrange(0, content@.len() as int) =~= content@);
            }
            Node::File { content: c }
        },
        Node::Dir => Node::Dir,
        Node::Link { target, is_dir } => Node::Link {
            target: target.as_str().to_owned(),
            is_dir: *is_dir,
        },
    }
}

/// Decides `git_pruned` for a node at path `path` copied from a root
/// with `rootlen` components.
pub fn git_flagged(rootlen: usize, path: &Vec<String>, node: &Node) -> (r: bool)
    ensures
        r == git_pruned(rootlen as int, path.deep_view(), node@),
{
    let is_dir = matches!(node, Node::Dir);
    let start: usize = if rootlen == 0 {
        0
    } else {
        rootlen - 1
    };
    let mut c: usize = start;
    while c < path.len()
        invariant
            start <= c,
            c <= path@.len() || c == start,
            start == (if rootlen == 0 {
                0
            } else {
                rootlen - 1
            }),
            is_dir == (node@ is Dir),
            forall|j: int|
                start <= j < c ==> !(#[trigger] path.deep_view()[j] == ".git"@ && (j < path
                    .deep_view()
                    .len() - 1 || node@ is Dir)),
        decreases path@.len() - c,
    {
        if str_eq(path[c].as_str(), ".git") {
            if c + 1 < path.len() || is_dir {
                proof {
                    assert(path.deep_view()[c as int] == ".git"@);
                }
                return true;
            }
        }
        proof {
            assert(path.deep_view()[c as int] == path@[c as int]@);
        }
        c += 1;
    }
    proof {
        if git_pruned(rootlen as int, path.deep_view(), node@) {
            let j = choose|j: int|
                0 <= j && rootlen - 1 <= j && j < path.deep_view().len() && #[trigger] path
                    .deep_view()[j] == ".git"@ && (j < path.deep_view().len() - 1 || node@ is Dir);
            assert(start <= j);
            assert(false);
        }
    }
    false
}

impl Fs {
    /// Replaces the subtree at `root` by `src`'s subtree at `root`,
    /// optionally leaving out symbolic links and pruned `.git`
    /// directories.
    pub fn copy_under(&mut self, src: &Fs, root: &Vec<String>, skip_links: bool, skip_git: bool)
        requires
            old(self).wf(),
            src.wf(),
        ensures
            final(self).wf(),
            final(self)@ == mirror(old(self)@, src@, root.deep_view(), skip_links, skip_git),
    {
        let ghost rootd = root.deep_view();
        self.remove_subtree(root);
        let ghost base = self@;
        let ghost srcs = src.entries@;
        let mut i: usize = 0;
        while i < src.entries.len()
            invariant
                0 <= i <= srcs.len(),
                srcs == src.entries@,
                src.wf(),
                self.wf(),
                rootd == root.deep_view(),
                base == old(self)@.remove_keys(subtree_set(rootd)),
                forall|k: Seq<Seq<char>>| #[trigger]
                    self@.contains_key(k) == (base.contains_key(k) || (under(rootd, k) && has_path(
                        srcs.subrange(0, i as int),
                        k,
                    ) && copy_keep(rootd.len() as int, k, src@[k], skip_links, skip_git))),
                forall|k: Seq<Seq<char>>|
                    #![trigger self@[k]]
                    self@.contains_key(k) ==> self@[k] == (if under(rootd, k) {
                        src@[k]
                    } else {
                        base[k]
                    }),
            decreases srcs.len() - i,
        {
            let keep_entry: bool;
            let under_root = rel_prefix(root, &src.entries[i].path);
            if !under_root {
                keep_entry = false;
            } else {
                let link = matches!(&src.entries[i].node, Node::Link { .. });
                if skip_links && link {
                    keep_entry = false;
                } else if skip_git && git_flagged(root.len(), &src.entries[i].path, &src.entries[i].node) {
                    keep_entry = false;
                } else {
                    keep_entry = true;
                }
            }
            let ghost pd = srcs[i as int].path.deep_view();
            let ghost nv = srcs[i as int].node@;
            proof {
                lemma_at(srcs, i as int);
                assert(src@.contains_key(pd));
                assert(src@[pd] == nv);
            }
            if keep_entry {
                let node = clone_node(&src.entries[i].node);
                let ghost m1 = self@;
                self.set_node(&src.entries[i].path, node);
                proof {
                    assert(self@ == m1.insert(pd, nv));
                    assert(copy_keep(rootd.len() as int, pd, src@[pd], skip_links, skip_git));
                    assert forall|k: Seq<Seq<char>>| #[trigger]
                        self@.contains_key(k) == (base.contains_key(k) || (under(rootd, k)
                            && has_path(srcs.subrange(0, i as int + 1), k) && copy_keep(
                            rootd.len() as int,
                            k,
                            src@[k],
                            skip_links,
                            skip_git,
                        ))) by {
                        let pr = srcs.subrange(0, i as int);
                        let cur = srcs.subrange(0, i as int + 1);
                        assert(pr.push(srcs[i as int]) =~= cur);
                        if k == pd {
                            assert(cur[i as int].path.deep_view() == k);
                            assert(has_path(cur, k));
                        } else {
                            assert(has_path(pr, k) == has_path(cur, k)) by {
                                if has_path(pr, k) {
                                    let a = choose|a: int|
                                        0 <= a < pr.len() && (#[trigger] pr[a]).path.deep_view()
                                            == k;
                                    assert(cur[a].path.deep_view() == k);
                                }
                                if has_path(cur, k) {
                                    let a = choose|a: int|
                                        0 <= a < cur.len() && (#[trigger] cur[a]).path.deep_view()
                                            == k;
                                    if a < i {
                                        assert(pr[a].path.deep_view() == k);
                                    } else {
                                        assert(k == pd);
                                        assert(false);
                                    }
                                }
                            }
                        }
                    }
                    assert forall|k: Seq<Seq<char>>|
                        #![trigger self@[k]]
                        self@.contains_key(k) implies self@[k] == (if under(rootd, k) {
                        src@[k]
                    } else {
                        base[k]
                    }) by {
                        if k == pd {
                            assert(self@[k] == nv);
                        } else {
                            assert(self@[k] == m1[k]);
                        }
                    }
                }
            } else {
                proof {
                    assert forall|k: Seq<Seq<char>>| #[trigger]
                        self@.contains_key(k) == (base.contains_key(k) || (under(rootd, k)
                            && has_path(srcs.subrange(0, i as int + 1), k) && copy_keep(
                            rootd.len() as int,
                            k,
                            src@[k],
                            skip_links,
                            skip_git,
                        ))) by {
                        let pr = srcs.subrange(0, i as int);
                        let cur = srcs.subrange(0, i as int + 1);
                        assert(pr.push(srcs[i as int]) =~= cur);
                        if k == pd {
                            if under_root {
                                assert(!copy_keep(
                                    rootd.len() as int,
                                    pd,
                                    src@[pd],
                                    skip_links,
                                    skip_git,
                                ));
                            }
                            if has_path(pr, k) {
                                let a = choose|a: int|
                                    0 <= a < pr.len() && (#[trigger] pr[a]).path.deep_view() == k;
                                assert(srcs[a].path.deep_view() == srcs[i as int].path.deep_view());
                                assert(false);
                            }
                        } else {
                            assert(has_path(pr, k) == has_path(cur, k)) by {
                                if has_path(pr, k) {
                                    let a = choose|a: int|
                                        0 <= a < pr.len() && (#[trigger] pr[a]).path.deep_view()
                                            == k;
                                    assert(cur[a].path.deep_view() == k);
                                }
                                if has_path(cur, k) {
                                    let a = choose|a: int|
                                        0 <= a < cur.len() && (#[trigger] cur[a]).path.deep_view()
                                            == k;
                                    if a < i {
                                        assert(pr[a].path.deep_view() == k);
                                    } else {
                                        assert(k == pd);
                                        assert(false);
                                    }
                                }
                            }
                        }
                    }
                }
            }
            i += 1;
        }
        proof {
            assert(srcs.subrange(0, srcs.len() as int) =~= srcs);
            assert forall|k: Seq<Seq<char>>|
                self@.contains_key(k) == mirror(
                    old(self)@,
                    src@,
                    rootd,
                    skip_links,
                    skip_git,
                ).contains_key(k) by {
                assert(self@.contains_key(k) == (base.contains_key(k) || (under(rootd, k)
                    && has_path(srcs, k) && copy_keep(
                    rootd.len() as int,
                    k,
                    src@[k],
                    skip_links,
                    skip_git,
                ))));
                assert(src@.contains_key(k) == has_path(srcs, k));
            }
            assert forall|k: Seq<Seq<char>>|
                self@.contains_key(k) implies self@[k] == mirror(
                old(self)@,
                src@,
                rootd,
                skip_links,
                skip_git,
            )[k] by {
                assert(self@[k] == (if under(rootd, k) {
                    src@[k]
                } else {
                    base[k]
                }));
            }
            assert(self@ =~= mirror(old(self)@, src@, rootd, skip_links, skip_git));
        }
    }

    /// The symbolic-link entries at or below `root`, each reported
    /// once, with path and node as stored.
    pub fn link_entries_under(&self, root: &Vec<String>) -> (r: Vec<FsEntry>)
        requires
            self.wf(),
        ensures
            entries_ok(r@),
            forall|a: int|
                0 <= a < r@.len() ==> {
                    let k = (#[trigger] r@[a]).path.deep_view();
                    under(root.deep_view(), k) && self@.contains_key(k) && self@[k] == r@[a].node@
                        && (r@[a].node@ is Link)
                },
            forall|k: Seq<Seq<char>>|
                under(root.deep_view(), k) && #[trigger] self@.contains_key(k) && (self@[k] is Link)
                    ==> has_path(r@, k),
    {
        let ghost rootd = root.deep_view();
        let ghost s = self.entries@;
        let mut out: Vec<FsEntry> = Vec::new();
        let mut i: usize = 0;
        while i < self.entries.len()
            invariant
                0 <= i <= s.len(),
                s == self.entries@,
                self.wf(),
                rootd == root.deep_view(),
                entries_ok(out@),
                forall|a: int|
                    0 <= a < out@.len() ==> {
                        let k = (#[trigger] out@[a]).path.deep_view();
                        under(rootd, k) && self@.contains_key(k) && self@[k] == out@[a].node@ && (
                        out@[a].node@ is Link)
                    },
                forall|a: int|
                    0 <= a < out@.len() ==> exists|j: int|
                        0 <= j < i && (#[trigger] out@[a]).path.deep_view() == s[j].path.deep_view(),
                forall|j: int|
                    0 <= j < i && under(rootd, (#[trigger] s[j]).path.deep_view()) && (s[j].node@
                        is Link) ==> has_path(out@, s[j].path.deep_view()),
            decreases s.len() - i,
        {
            let is_link = matches!(&self.entries[i].node, Node::Link { .. });
            let ghost pre = out@;
            if is_link && rel_prefix(root, &self.entries[i].path) {
                let entry = FsEntry {
                    path: copy_strings(&self.entries[i].path),
                    node: clone_node(&self.entries[i].node),
                };
                proof {
                    lemma_at(s, i as int);
                    assert(entry.path.deep_view() == s[i as int].path.deep_view());
                    assert(entry.node@ == s[i as int].node@);
                    assert(self@[entry.path.deep_view()] == entry.node@);
                }
                out.push(entry);
                proof {
                    assert forall|a: int, b: int|
                        0 <= a < b < out@.len() implies (#[trigger] out@[a]).path.deep_view() != (
                    #[trigger] out@[b]).path.deep_view() by {
                        if b == pre.len() {
                            assert(out@[a] == pre[a]);
                            let j = choose|j: int|
                                0 <= j < i && (#[trigger] pre[a]).path.deep_view() == s[j].path
                                    .deep_view();
                            assert(s[j].path.deep_view() != s[i as int].path.deep_view());
                        } else {
                            assert(out@[a] == pre[a]);
                            assert(out@[b] == pre[b]);
                        }
                    }
                    assert forall|a: int|
                        0 <= a < out@.len() implies (#[trigger] out@[a]).path@.len() > 0 by {
                        if a < pre.len() {
                            assert(out@[a] == pre[a]);
                        }
                    }
                    assert forall|j: int|
                        0 <= j < i + 1 && under(rootd, (#[trigger] s[j]).path.deep_view()) && (
                    s[j].node@ is Link) implies has_path(out@, s[j].path.deep_view()) by {
                        if j < i {
                            assert(has_path(pre, s[j].path.deep_view()));
                            let a = choose|a: int|
                                0 <= a < pre.len() && (#[trigger] pre[a]).path.deep_view() == s[j]
                                    .path
                                    .deep_view();
                            assert(out@[a] == pre[a]);
                        } else {
                            assert(out@[pre.len() as int].path.deep_view() == s[i as int].path
                                .deep_view());
                        }
                    }
                }
            } else {
                proof {
                    lemma_at(s, i as int);
                    if under(rootd, s[i as int].path.deep_view()) && (s[i as int].node@ is Link) {
                        assert(is_link);
                        assert(rootd.is_prefix_of(s[i as int].path.deep_view()));
                        assert(false);
                    }
                    assert forall|j: int|
                        0 <= j < i + 1 && under(rootd, (#[trigger] s[j]).path.deep_view()) && (
                    s[j].node@ is Link) implies has_path(out@, s[j].path.deep_view()) by {
                        if j < i {
                            assert(has_path(pre, s[j].path.deep_view()));
                        }
                    }
                }
            }
            i += 1;
        }
        proof {
            assert forall|k: Seq<Seq<char>>|
                under(rootd, k) && #[trigger] self@.contains_key(k) && (self@[k] is Link) implies
                has_path(out@, k) by {
                let j = idx_of(s, k);
                assert(s[j].path.deep_view() == k);
                assert(self@[k] == s[j].node@);
            }
        }
        out
    }

    /// Read access to the entry list, for walking a root's contents.
    pub fn all_entries(&self) -> (r: &Vec<FsEntry>)
        requires
            self.wf(),
        ensures
            entries_ok(r@),
            forall|a: int|
                0 <= a < r@.len() ==> {
                    let k = (#[trigger] r@[a]).path.deep_view();
                    self@.contains_key(k) && self@[k] == r@[a].node@
                },
            forall|k: Seq<Seq<char>>| #[trigger] self@.contains_key(k) ==> has_path(r@, k),
    {
        proof {
            assert forall|a: int|
                0 <= a < self.entries@.len() implies {
                let k = (#[trigger] self.entries@[a]).path.deep_view();
                self@.contains_key(k) && self@[k] == self.entries@[a].node@
            } by {
                lemma_at(self.entries@, a);
            }
        }
        &self.entries
    }
}

/// Every key of `m` is made of valid components.
pub open spec fn valid_keys(m: Map<Seq<Seq<char>>, NodeV>) -> bool {
    forall|k: Seq<Seq<char>>| #[trigger] m.contains_key(k) ==> crate::paths::valid_key(k)
}

} // verus!
