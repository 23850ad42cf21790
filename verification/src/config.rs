//! The tool's configuration: a git remote plus the selected paths and
//! bundles.  File I/O and the on-disk encoding stay outside the
//! library; these types carry the values and the normalization rules.

use vstd::prelude::*;

verus! {

use crate::bundles::UnknownBundle;
use crate::bundles::in_bundle_paths;
use crate::bundles::resolve_paths;
use crate::bundles::spec_find;
use crate::strset::insert_sorted;
use crate::strset::sort_unique;
use crate::strset::sorted_strict;
use vstd::string::StringExecFns;

/// The git remote a backup is pushed to and restored from.
pub struct RepoConfig {
    pub url: String,
    pub branch: String,
}

/// The tracked selection: explicit paths plus bundle identifiers.
pub struct FileConfig {
    pub paths: Vec<String>,
    pub bundles: Vec<String>,
}

/// The whole configuration.
pub struct SyncConfig {
    pub repo: RepoConfig,
    pub files: FileConfig,
}

/// Every identifier in `ids` names a catalog bundle.
pub open spec fn all_bundles_known(ids: Seq<Seq<char>>) -> bool {
    forall|i: int| 0 <= i < ids.len() ==> (#[trigger] spec_find(ids[i])) is Some
}

/// Whether `p` belongs to the configuration's selection: an explicit
/// path, or a path of a selected bundle.
pub open spec fn spec_selected(files: &FileConfig, p: Seq<char>) -> bool {
    files.paths.deep_view().contains(p) || in_bundle_paths(files.bundles.deep_view(), p)
}

/// The branch used when a configuration names none.
pub fn default_branch() -> (r: String)
    ensures
        r@ == "main"@,
{
    "main".to_owned()
}

/// The configuration file's location inside a configuration directory.
pub fn config_file_path(config_dir: &str) -> (r: String)
    ensures
        r@ == config_dir@ + "/config.toml"@,
{
    let mut r = config_dir.to_owned();
    r.append("/config.toml");
    r
}

/// The activity log's location inside a state directory.
pub fn activity_log_path(state_dir: &str) -> (r: String)
    ensures
        r@ == state_dir@ + "/activity.log"@,
{
    let mut r = state_dir.to_owned();
    r.append("/activity.log");
    r
}

/// An error raised while resolving or normalizing a configuration.
#[derive(Debug)]
pub enum ConfigError {
    /// A selected bundle identifier is not in the catalog.
    UnknownBundle { id: String },
    /// The configuration selects no path at all.
    NoPathsConfigured,
}

impl SyncConfig {
    /// Resolves the configured selection to the sorted, deduplicated
    /// union of explicit paths and bundle paths.
    pub fn resolved_paths(&self) -> (r: Result<Vec<String>, UnknownBundle>)
        ensures
            r is Ok <==> all_bundles_known(self.files.bundles.deep_view()),
            match r {
                Ok(v) => sorted_strict(v.deep_view()) && (forall|p: Seq<char>|
                    #![trigger v.deep_view().contains(p)]
                    v.deep_view().contains(p) <==> spec_selected(&self.files, p)),
                Err(e) => self.files.bundles.deep_view().contains(e.id@) && spec_find(e.id@)
                    is None,
            },
    {
        let ids = self.files.bundles.as_slice();
        proof {
            assert(ids.deep_view() =~= self.files.bundles.deep_view());
        }
        let from_bundles = resolve_paths(ids);
        match from_bundles {
            Err(e) => Err(e),
            Ok(mut out) => {
                let mut i: usize = 0;
                while i < self.files.paths.len()
                    invariant
                        0 <= i <= self.files.paths@.len(),
                        sorted_strict(out.deep_view()),
                        forall|p: Seq<char>|
                            #![trigger out.deep_view().contains(p)]
                            out.deep_view().contains(p) <==> (in_bundle_paths(
                                self.files.bundles.deep_view(),
                                p,
                            ) || self.files.paths.deep_view().subrange(0, i as int).contains(p)),
                    decreases self.files.paths@.len() - i,
                {
                    let s = self.files.paths[i].as_str().to_owned();
                    proof {
                        assert(s@ == self.files.paths.deep_view()[i as int]);
                    }
                    let ghost preout = out.deep_view();
                    insert_sorted(&mut out, s);
                    proof {
                        let pre = self.files.paths.deep_view().subrange(0, i as int);
                        let post = self.files.paths.deep_view().subrange(0, i as int + 1);
                        assert(pre.push(self.files.paths.deep_view()[i as int]) =~= post);
                        assert forall|p: Seq<char>|
                            out.deep_view().contains(p) <==> (in_bundle_paths(
                                self.files.bundles.deep_view(),
                                p,
                            ) || post.contains(p)) by {
                            assert(out.deep_view().contains(p) <==> (preout.contains(p) || p
                                == self.files.paths.deep_view()[i as int]));
                            assert(preout.contains(p) <==> (in_bundle_paths(
                                self.files.bundles.deep_view(),
                                p,
                            ) || pre.contains(p)));
                            if post.contains(p) {
                                let k = choose|k: int| 0 <= k < post.len() && post[k] == p;
                                if k < i {
                                    assert(pre[k] == p);
                                    assert(pre.contains(p));
                                } else {
                                    assert(p == self.files.paths.deep_view()[i as int]);
                                }
                            }
                            if pre.contains(p) {
                                let k = choose|k: int| 0 <= k < pre.len() && pre[k] == p;
                                assert(post[k] == p);
                            }
                            if p == self.files.paths.deep_view()[i as int] {
                                assert(post[i as int] == p);
                            }
                        }
                    }
                    i += 1;
                }
                proof {
                    assert(self.files.paths.deep_view().subrange(
                        0,
                        self.files.paths.deep_view().len() as int,
                    ) =~= self.files.paths.deep_view());
                }
                Ok(out)
            },
        }
    }

    /// Rejects a configuration whose selection is empty.
    pub fn ensure_non_empty_paths(&self) -> (r: Result<(), ConfigError>)
        ensures
            r is Ok <==> (all_bundles_known(self.files.bundles.deep_view()) && exists|p: Seq<char>|
                #[trigger] spec_selected(&self.files, p)),
            match r {
                Ok(()) => true,
                Err(ConfigError::UnknownBundle { id }) => self.files.bundles.deep_view().contains(
                    id@,
                ) && spec_find(id@) is None,
                Err(ConfigError::NoPathsConfigured) => all_bundles_known(
                    self.files.bundles.deep_view(),
                ) && (forall|p: Seq<char>| !(#[trigger] spec_selected(&self.files, p))),
            },
    {
        let resolved = self.resolved_paths();
        match resolved {
            Err(e) => Err(ConfigError::UnknownBundle { id: e.id }),
            Ok(v) => {
                if v.len() == 0 {
                    proof {
                        assert forall|p: Seq<char>| !(#[trigger] spec_selected(&self.files, p)) by {
                            if spec_selected(&self.files, p) {
                                assert(v.deep_view().contains(p));
                            }
                        }
                    }
                    Err(ConfigError::NoPathsConfigured)
                } else {
                    proof {
                        assert(v.deep_view().contains(v.deep_view()[0]));
                        assert(spec_selected(&self.files, v.deep_view()[0]));
                    }
                    Ok(())
                }
            },
        }
    }

    /// The configured bundle identifiers, sorted and deduplicated.
    pub fn sorted_bundles(&self) -> (r: Vec<String>)
        ensures
            sorted_strict(r.deep_view()),
            forall|y: Seq<char>|
                #![trigger r.deep_view().contains(y)]
                r.deep_view().contains(y) <==> self.files.bundles.deep_view().contains(y),
    {
        sort_unique(&self.files.bundles)
    }

    /// The configuration with paths and bundles sorted and
    /// deduplicated; fails if a bundle identifier is unknown.
    pub fn normalized(&self) -> (r: Result<SyncConfig, UnknownBundle>)
        ensures
            r is Ok <==> all_bundles_known(self.files.bundles.deep_view()),
            match r {
                Ok(c) => {
                    &&& c.repo.url@ == self.repo.url@
                    &&& c.repo.branch@ == self.repo.branch@
                    &&& sorted_strict(c.files.paths.deep_view())
                    &&& sorted_strict(c.files.bundles.deep_view())
                    &&& (forall|y: Seq<char>|
                        #![trigger c.files.paths.deep_view().contains(y)]
                        c.files.paths.deep_view().contains(y) <==> self.files.paths
                            .deep_view()
                            .contains(y))
                    &&& (forall|y: Seq<char>|
                        #![trigger c.files.bundles.deep_view().contains(y)]
                        c.files.bundles.deep_view().contains(y) <==> self.files.bundles
                            .deep_view()
                            .contains(y))
                },
                Err(e) => self.files.bundles.deep_view().contains(e.id@) && spec_find(e.id@)
                    is None,
            },
    {
        let bundles = self.sorted_bundles();
        let bundle_slice = bundles.as_slice();
        proof {
            assert(bundle_slice.deep_view() =~= bundles.deep_view());
        }
        let checked = crate::bundles::ensure_known(bundle_slice);
        match checked {
            Err(e) => {
                proof {
                    assert(self.files.bundles.deep_view().contains(e.id@));
                }
                Err(e)
            },
            Ok(()) => {
                proof {
                    assert forall|i: int|
                        0 <= i < self.files.bundles.deep_view().len() implies (#[trigger] spec_find(
                        self.files.bundles.deep_view()[i],
                    )) is Some by {
                        let y = self.files.bundles.deep_view()[i];
                        assert(self.files.bundles.deep_view().contains(y));
                        assert(bundles.deep_view().contains(y));
                        let k = choose|k: int|
                            0 <= k < bundles.deep_view().len() && bundles.deep_view()[k] == y;
                        assert(spec_find(bundles.deep_view()[k]) is Some);
                    }
                }
                let paths = sort_unique(&self.files.paths);
                Ok(
                    SyncConfig {
                        repo: RepoConfig {
                            url: self.repo.url.clone(),
                            branch: self.repo.branch.clone(),
                        },
                        files: FileConfig { paths, bundles },
                    },
                )
            },
        }
    }
}

} // verus!
