//! Sorted, duplicate-free vectors of strings.
//!
//! The configuration surface of the tool keeps path and bundle
//! selections as lexicographically sorted vectors without duplicates;
//! this module provides the verified building blocks for them.

use vstd::prelude::*;

verus! {

use crate::text::lex_le;
use crate::text::lex_lt;
use crate::text::lemma_lex_antisymmetric;
use crate::text::lemma_lex_total;
use crate::text::lemma_lex_transitive;
use crate::text::str_eq;
use crate::text::str_le;

/// Strictly ascending in the lexicographic order, hence duplicate-free.
pub open spec fn sorted_strict(s: Seq<Seq<char>>) -> bool {
    forall|i: int, j: int| 0 <= i < j < s.len() ==> lex_lt(#[trigger] s[i], #[trigger] s[j])
}

/// Membership test for a string among the views of a vector.
pub fn contains_str(v: &Vec<String>, x: &str) -> (r: bool)
    ensures
        r == v.deep_view().contains(x@),
{
    let mut i: usize = 0;
    while i < v.len()
        invariant
            0 <= i <= v@.len(),
            forall|j: int| 0 <= j < i ==> v.deep_view()[j] != x@,
        decreases v@.len() - i,
    {
        if str_eq(v[i].as_str(), x) {
            proof {
                assert(v.deep_view()[i as int] == x@);
            }
            return true;
        }
        i += 1;
    }
    proof {
        assert(forall|j: int| 0 <= j < v.deep_view().len() ==> v.deep_view()[j] != x@);
    }
    false
}

/// Inserts `x` into a sorted vector, keeping it sorted; a duplicate of
/// an existing element is dropped.
pub fn insert_sorted(v: &mut Vec<String>, x: String)
    requires
        sorted_strict(old(v).deep_view()),
    ensures
        sorted_strict(final(v).deep_view()),
        forall|y: Seq<char>|
            final(v).deep_view().contains(y) <==> (old(v).deep_view().contains(y) || y == x@),
{
    let ghost orig = v.deep_view();
    let mut i: usize = 0;
    while i < v.len() && !str_le(x.as_str(), v[i].as_str())
        invariant
            0 <= i <= v@.len(),
            v.deep_view() == orig,
            sorted_strict(orig),
            forall|j: int| 0 <= j < i ==> !lex_le(x@, #[trigger] orig[j]),
        decreases v@.len() - i,
    {
        i += 1;
    }
    proof {
        assert forall|j: int| 0 <= j < i implies lex_lt(#[trigger] orig[j], x@) by {
            lemma_lex_total(x@, orig[j]);
            if orig[j] == x@ {
                assert(lex_le(x@, orig[j]));
            }
        }
    }
    if i < v.len() && str_eq(v[i].as_str(), x.as_str()) {
        proof {
            assert(orig[i as int] == x@);
            assert(forall|y: Seq<char>|
                v.deep_view().contains(y) <==> (orig.contains(y) || y == x@));
        }
        return ;
    }
    proof {
        if i < orig.len() {
            assert(lex_le(x@, orig[i as int]));
            assert(orig[i as int] != x@);
            assert(lex_lt(x@, orig[i as int]));
        }
    }
    let ghost xv = x@;
    v.insert(i, x);
    proof {
        let cur = v.deep_view();
        assert(v@.len() == orig.len() + 1);
        assert forall|k: int| 0 <= k < cur.len() implies cur[k] == (if k < i {
            orig[k]
        } else if k == i {
            xv
        } else {
            orig[k - 1]
        }) by {
            assert(v@ == old(v)@.insert(i as int, v@[i as int]));
        }
        assert forall|a: int, b: int| 0 <= a < b < cur.len() implies lex_lt(
            #[trigger] cur[a],
            #[trigger] cur[b],
        ) by {
            if a < i && b < i {
            } else if a < i && b == i {
                assert(lex_lt(orig[a], xv));
            } else if a < i && b > i {
                assert(lex_lt(orig[a], orig[b - 1]));
            } else if a == i && b > i {
                assert(i < orig.len());
                if b - 1 > i {
                    assert(lex_lt(orig[i as int], orig[b - 1]));
                    lemma_lex_transitive(xv, orig[i as int], orig[b - 1]);
                    if xv == orig[b - 1] {
                        lemma_lex_antisymmetric(xv, orig[i as int]);
                    }
                } else {
                    assert(lex_lt(xv, orig[i as int]));
                }
            } else {
                assert(a > i && b > i);
                assert(lex_lt(orig[a - 1], orig[b - 1]));
            }
        }
        assert forall|y: Seq<char>| cur.contains(y) <==> (orig.contains(y) || y == xv) by {
            if cur.contains(y) {
                let k = choose|k: int| 0 <= k < cur.len() && cur[k] == y;
                if k < i {
                    assert(orig[k] == y);
                } else if k > i {
                    assert(orig[k - 1] == y);
                }
            }
            if orig.contains(y) {
                let k = choose|k: int| 0 <= k < orig.len() && orig[k] == y;
                if k < i {
                    assert(cur[k] == y);
                } else {
                    assert(cur[k + 1] == y);
                }
            }
            if y == xv {
                assert(cur[i as int] == y);
            }
        }
    }
}

/// Returns the elements of `v` sorted and with duplicates removed.
pub fn sort_unique(v: &Vec<String>) -> (r: Vec<String>)
    ensures
        sorted_strict(r.deep_view()),
        forall|y: Seq<char>| r.deep_view().contains(y) <==> v.deep_view().contains(y),
{
    let mut out: Vec<String> = Vec::new();
    let mut i: usize = 0;
    proof {
        assert(forall|y: Seq<char>| !out.deep_view().contains(y));
    }
    while i < v.len()
        invariant
            0 <= i <= v@.len(),
            sorted_strict(out.deep_view()),
            forall|y: Seq<char>|
                out.deep_view().contains(y) <==> v.deep_view().subrange(0, i as int).contains(y),
        decreases v@.len() - i,
    {
        let s = v[i].as_str().to_owned();
        proof {
            assert(s@ == v.deep_view()[i as int]);
        }
        insert_sorted(&mut out, s);
        proof {
            let pre = v.deep_view().subrange(0, i as int);
            let post = v.deep_view().subrange(0, i as int + 1);
            assert forall|y: Seq<char>|
                out.deep_view().contains(y) <==> post.contains(y) by {
                assert(pre.push(v.deep_view()[i as int]) =~= post);
                if post.contains(y) {
                    let k = choose|k: int| 0 <= k < post.len() && post[k] == y;
                    if k < i {
                        assert(pre[k] == y);
                        assert(pre.contains(y));
                    } else {
                        assert(y == v.deep_view()[i as int]);
                    }
                }
                if pre.contains(y) {
                    let k = choose|k: int| 0 <= k < pre.len() && pre[k] == y;
                    assert(post[k] == y);
                }
                if y == v.deep_view()[i as int] {
                    assert(post[i as int] == y);
                    assert(post.contains(y));
                }
            }
        }
        i += 1;
    }
    proof {
        assert(v.deep_view().subrange(0, v.deep_view().len() as int) =~= v.deep_view());
    }
    out
}

/// Copies a vector of strings.
pub fn copy_strings(v: &Vec<String>) -> (r: Vec<String>)
    ensures
        r.deep_view() == v.deep_view(),
{
    let mut out: Vec<String> = Vec::new();
    let mut i: usize = 0;
    while i < v.len()
        invariant
            0 <= i <= v@.len(),
            out.deep_view() == v.deep_view().subrange(0, i as int),
        decreases v@.len() - i,
    {
        let ghost pre = out.deep_view();
        out.push(v[i].as_str().to_owned());
        proof {
            assert(out.deep_view().len() == pre.len() + 1);
            assert forall|k: int| 0 <= k < out.deep_view().len() implies out.deep_view()[k] == v
                .deep_view()
                .subrange(0, i as int + 1)[k] by {
                if k < i {
                    assert(out.deep_view()[k] == pre[k]);
                } else {
                    assert(out.deep_view()[k] == v.deep_view()[i as int]);
                }
            }
            assert(out.deep_view() =~= v.deep_view().subrange(0, i as int + 1));
        }
        i += 1;
    }
    proof {
        assert(v.deep_view().subrange(0, v.deep_view().len() as int) =~= v.deep_view());
    }
    out
}

} // verus!
