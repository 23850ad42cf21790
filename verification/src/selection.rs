//! Selection handling around the engines: normalizing user-supplied
//! path and bundle lists, validating a chosen subset against the
//! configured set, and pruning explicit paths a bundle already covers.

use vstd::prelude::*;

verus! {

use crate::bundles::UnknownBundle;
use crate::bundles::all;
use crate::bundles::in_bundle_paths;
use crate::bundles::resolve_paths;
use crate::bundles::spec_catalog;
use crate::bundles::spec_find;
use crate::strset::contains_str;
use crate::strset::insert_sorted;
use crate::strset::sorted_strict;
use crate::text::spec_trim;
use crate::text::str_eq;
use crate::text::trim;
use vstd::string::StrSliceExecFns;
use vstd::string::StringExecFns;

/// Membership of `x` among the views of a string slice.
fn slice_contains(v: &[String], x: &str) -> (r: bool)
    ensures
        r == v.deep_view().contains(x@),
{
    let mut i: usize = 0;
    while i < v.len()
        invariant
            0 <= i <= v@.len(),
            forall|j: int| 0 <= j < i ==> v.deep_view()[j] != x@,
        decreases v@.len() - i,
    {
        if str_eq(v[i].as_str(), x) {
            proof {
                assert(v.deep_view()[i as int] == x@);
            }
            return true;
        }
        i += 1;
    }
    proof {
        assert(forall|j: int| 0 <= j < v.deep_view().len() ==> v.deep_view()[j] != x@);
    }
    false
}

/// Trims each entry, drops the empty ones, sorts and deduplicates.
pub fn normalize_paths(paths: Vec<String>) -> (r: Vec<String>)
    ensures
        sorted_strict(r.deep_view()),
        forall|y: Seq<char>|
            #![trigger r.deep_view().contains(y)]
            r.deep_view().contains(y) <==> (y.len() > 0 && exists|i: int|
                0 <= i < paths.deep_view().len() && spec_trim(#[trigger] paths.deep_view()[i])
                    == y),
{
    let ghost pv = paths.deep_view();
    let mut out: Vec<String> = Vec::new();
    let mut i: usize = 0;
    while i < paths.len()
        invariant
            0 <= i <= pv.len(),
            pv == paths.deep_view(),
            pv.len() == paths@.len(),
            sorted_strict(out.deep_view()),
            forall|y: Seq<char>|
                #![trigger out.deep_view().contains(y)]
                out.deep_view().contains(y) <==> (y.len() > 0 && exists|j: int|
                    0 <= j < i && spec_trim(#[trigger] pv[j]) == y),
        decreases pv.len() - i,
    {
        let t = trim(paths[i].as_str());
        proof {
            assert(t@ == spec_trim(pv[i as int]));
        }
        if t.unicode_len() > 0 {
            let ghost pre = out.deep_view();
            let ghost tv = t@;
            insert_sorted(&mut out, t);
            proof {
                assert forall|y: Seq<char>|
                    #![trigger out.deep_view().contains(y)]
                    out.deep_view().contains(y) <==> (y.len() > 0 && exists|j: int|
                        0 <= j < i + 1 && spec_trim(#[trigger] pv[j]) == y) by {
                    assert(out.deep_view().contains(y) <==> (pre.contains(y) || y == tv));
                    if out.deep_view().contains(y) {
                        if pre.contains(y) {
                            let j = choose|j: int| 0 <= j < i && spec_trim(#[trigger] pv[j]) == y;
                            assert(spec_trim(pv[j]) == y);
                        } else {
                            assert(y == tv);
                            assert(spec_trim(pv[i as int]) == y);
                        }
                    }
                    if y.len() > 0 && exists|j: int|
                        0 <= j < i + 1 && spec_trim(#[trigger] pv[j]) == y {
                        let j = choose|j: int|
                            0 <= j < i + 1 && spec_trim(#[trigger] pv[j]) == y;
                        if j < i {
                            assert(pre.contains(y));
                        } else {
                            assert(y == tv);
                        }
                    }
                }
            }
        } else {
            proof {
                assert forall|y: Seq<char>|
                    #![trigger out.deep_view().contains(y)]
                    out.deep_view().contains(y) <==> (y.len() > 0 && exists|j: int|
                        0 <= j < i + 1 && spec_trim(#[trigger] pv[j]) == y) by {
                    if out.deep_view().contains(y) {
                        let j = choose|j: int| 0 <= j < i && spec_trim(#[trigger] pv[j]) == y;
                        assert(spec_trim(pv[j]) == y);
                    }
                    if y.len() > 0 && exists|j: int|
                        0 <= j < i + 1 && spec_trim(#[trigger] pv[j]) == y {
                        let j = choose|j: int|
                            0 <= j < i + 1 && spec_trim(#[trigger] pv[j]) == y;
                        if j == i {
                            assert(y == t@);
                            assert(false);
                        }
                    }
                }
            }
        }
        i += 1;
    }
    out
}

/// Trims each identifier, drops the empty ones, sorts and
/// deduplicates.
pub fn normalize_bundles(bundles: Vec<String>) -> (r: Vec<String>)
    ensures
        sorted_strict(r.deep_view()),
        forall|y: Seq<char>|
            #![trigger r.deep_view().contains(y)]
            r.deep_view().contains(y) <==> (y.len() > 0 && exists|i: int|
                0 <= i < bundles.deep_view().len() && spec_trim(#[trigger] bundles.deep_view()[i])
                    == y),
{
    normalize_paths(bundles)
}

/// The error reported for a selected path outside the configured set.
#[derive(Debug)]
pub struct PathNotConfigured {
    pub path: String,
}

impl PathNotConfigured {
    /// A human-readable description of the error.
    pub fn message(&self) -> (r: String)
        ensures
            r@ == "Path "@ + self.path@ + " is not part of the configured backup set"@,
    {
        let mut r = "Path ".to_owned();
        r.append(self.path.as_str());
        r.append(" is not part of the configured backup set");
        proof {
            assert(r@ =~= "Path "@ + self.path@ + " is not part of the configured backup set"@);
        }
        r
    }
}

/// Checks that every selected path belongs to the valid set.
pub fn validate_paths(valid: &[String], selected: &[String]) -> (r: Result<(), PathNotConfigured>)
    ensures
        r is Ok <==> (forall|i: int|
            0 <= i < selected.deep_view().len() ==> valid.deep_view().contains(
                #[trigger] selected.deep_view()[i],
            )),
        match r {
            Ok(()) => true,
            Err(e) => selected.deep_view().contains(e.path@) && !valid.deep_view().contains(
                e.path@,
            ),
        },
{
    let mut i: usize = 0;
    while i < selected.len()
        invariant
            0 <= i <= selected@.len(),
            forall|j: int|
                0 <= j < i ==> valid.deep_view().contains(#[trigger] selected.deep_view()[j]),
        decreases selected@.len() - i,
    {
        if !slice_contains(valid, selected[i].as_str()) {
            proof {
                assert(selected.deep_view()[i as int] == selected@[i as int]@);
            }
            return Err(PathNotConfigured { path: selected[i].as_str().to_owned() });
        }
        i += 1;
    }
    Ok(())
}

/// The identifiers of the catalog bundles whose paths all appear in
/// `paths`, sorted.
pub fn detect_bundles_from_paths(paths: &[String]) -> (r: Vec<String>)
    ensures
        sorted_strict(r.deep_view()),
        forall|id: Seq<char>|
            #![trigger r.deep_view().contains(id)]
            r.deep_view().contains(id) <==> (exists|k: int|
                0 <= k < spec_catalog().len() && (#[trigger] spec_catalog()[k]).id == id && (
                forall|j: int|
                    0 <= j < spec_catalog()[k].paths.len() ==> paths.deep_view().contains(
                        #[trigger] spec_catalog()[k].paths[j],
                    ))),
{
    let cat = all();
    let mut out: Vec<String> = Vec::new();
    let mut k: usize = 0;
    while k < cat.len()
        invariant
            0 <= k <= cat@.len(),
            cat.deep_view() == spec_catalog(),
            cat@.len() == spec_catalog().len(),
            sorted_strict(out.deep_view()),
            forall|id: Seq<char>|
                #![trigger out.deep_view().contains(id)]
                out.deep_view().contains(id) <==> (exists|m: int|
                    0 <= m < k && (#[trigger] spec_catalog()[m]).id == id && (forall|j: int|
                        0 <= j < spec_catalog()[m].paths.len() ==> paths.deep_view().contains(
                            #[trigger] spec_catalog()[m].paths[j],
                        ))),
        decreases cat@.len() - k,
    {
        let ghost kv = spec_catalog()[k as int];
        let mut covered = true;
        let mut j: usize = 0;
        while j < cat[k].paths.len()
            invariant
                0 <= j <= cat[k as int].paths@.len(),
                0 <= k < cat@.len(),
                cat.deep_view() == spec_catalog(),
                kv == spec_catalog()[k as int],
                kv.paths.len() == cat[k as int].paths@.len(),
                covered == (forall|m: int|
                    0 <= m < j ==> paths.deep_view().contains(#[trigger] kv.paths[m])),
            decreases cat[k as int].paths@.len() - j,
        {
            if !slice_contains(paths, cat[k].paths[j].as_str()) {
                proof {
                    assert(kv.paths[j as int] == cat[k as int].paths.deep_view()[j as int]);
                }
                covered = false;
            }
            proof {
                assert(kv.paths[j as int] == cat[k as int].paths.deep_view()[j as int]);
            }
            j += 1;
        }
        let ghost pre = out.deep_view();
        if covered {
            let id = cat[k].id.as_str().to_owned();
            proof {
                assert(id@ == kv.id);
            }
            insert_sorted(&mut out, id);
        }
        proof {
            assert forall|id: Seq<char>|
                #![trigger out.deep_view().contains(id)]
                out.deep_view().contains(id) <==> (exists|m: int|
                    0 <= m < k + 1 && (#[trigger] spec_catalog()[m]).id == id && (forall|j2: int|
                        0 <= j2 < spec_catalog()[m].paths.len() ==> paths.deep_view().contains(
                            #[trigger] spec_catalog()[m].paths[j2],
                        ))) by {
                if covered {
                    assert(out.deep_view().contains(id) <==> (pre.contains(id) || id == kv.id));
                } else {
                    assert(out.deep_view() == pre);
                }
                if out.deep_view().contains(id) {
                    if pre.contains(id) {
                        let m = choose|m: int|
                            0 <= m < k && (#[trigger] spec_catalog()[m]).id == id && (forall|
                                j2: int,
                            |
                                0 <= j2 < spec_catalog()[m].paths.len()
                                    ==> paths.deep_view().contains(
                                    #[trigger] spec_catalog()[m].paths[j2],
                                ));
                        assert(spec_catalog()[m].id == id);
                    } else {
                        assert(covered && id == kv.id);
                        assert(spec_catalog()[k as int].id == id);
                    }
                }
                if exists|m: int|
                    0 <= m < k + 1 && (#[trigger] spec_catalog()[m]).id == id && (forall|j2: int|
                        0 <= j2 < spec_catalog()[m].paths.len() ==> paths.deep_view().contains(
                            #[trigger] spec_catalog()[m].paths[j2],
                        )) {
                    let m = choose|m: int|
                        0 <= m < k + 1 && (#[trigger] spec_catalog()[m]).id == id && (forall|
                            j2: int,
                        |
                            0 <= j2 < spec_catalog()[m].paths.len() ==> paths.deep_view().contains(
                                #[trigger] spec_catalog()[m].paths[j2],
                            ));
                    if m < k {
                        assert(pre.contains(id));
                    } else {
                        assert(covered);
                        assert(id == kv.id);
                    }
                }
            }
        }
        k += 1;
    }
    out
}

/// Keeps only the explicit paths not already covered by a selected
/// bundle, in their original order; fails on an unknown bundle.
pub fn prune_explicit_paths(bundles: &[String], paths: Vec<String>) -> (r: Result<
    Vec<String>,
    UnknownBundle,
>)
    ensures
        r is Ok <==> (forall|i: int|
            0 <= i < bundles.deep_view().len() ==> (#[trigger] spec_find(
                bundles.deep_view()[i],
            )) is Some),
        match r {
            Ok(v) => v.deep_view() == paths.deep_view().filter(
                |p: Seq<char>| !in_bundle_paths(bundles.deep_view(), p),
            ),
            Err(e) => bundles.deep_view().contains(e.id@) && spec_find(e.id@) is None,
        },
{
    let ghost pred = |p: Seq<char>| !in_bundle_paths(bundles.deep_view(), p);
    let resolved = resolve_paths(bundles);
    match resolved {
        Err(e) => Err(e),
        Ok(bs) => {
            let mut out: Vec<String> = Vec::new();
            let mut i: usize = 0;
            proof {
                assert(paths.deep_view().subrange(0, 0) =~= Seq::<Seq<char>>::empty());
                assert(Seq::<Seq<char>>::empty().filter(pred) =~= Seq::<Seq<char>>::empty());
                assert(out.deep_view() =~= paths.deep_view().subrange(0, 0).filter(pred));
            }
            while i < paths.len()
                invariant
                    0 <= i <= paths@.len(),
                    forall|p: Seq<char>|
                        #![trigger bs.deep_view().contains(p)]
                        bs.deep_view().contains(p) <==> in_bundle_paths(bundles.deep_view(), p),
                    pred == (|p: Seq<char>| !in_bundle_paths(bundles.deep_view(), p)),
                    out.deep_view() == paths.deep_view().subrange(0, i as int).filter(pred),
                decreases paths@.len() - i,
            {
                let ghost pv = paths.deep_view()[i as int];
                let ghost pre = out.deep_view();
                if !contains_str(&bs, paths[i].as_str()) {
                    out.push(paths[i].as_str().to_owned());
                    proof {
                        assert(pred(pv));
                        assert(out.deep_view() =~= pre.push(pv));
                    }
                } else {
                    proof {
                        assert(!pred(pv));
                    }
                }
                proof {
                    let sub = paths.deep_view().subrange(0, i as int);
                    sub.lemma_filter_push(pv, pred);
                    assert(sub.push(pv).filter(pred) == (if pred(pv) {
                        sub.filter(pred).push(pv)
                    } else {
                        sub.filter(pred)
                    }));
                    assert(sub.push(pv) =~= paths.deep_view().subrange(0, i as int + 1));
                    assert(out.deep_view() =~= paths.deep_view().subrange(0, i as int + 1).filter(
                        pred,
                    ));
                }
                i += 1;
            }
            proof {
                assert(paths.deep_view().subrange(0, paths.deep_view().len() as int) =~= paths
                    .deep_view());
            }
            Ok(out)
        },
    }
}

} // verus!
