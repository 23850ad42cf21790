//! The static catalog of selectable dotfile bundles and its lookup and
//! path-resolution operations.

use vstd::prelude::*;

verus! {

use crate::strset::insert_sorted;
use crate::strset::sorted_strict;
use crate::text::str_eq;

/// Definition of a selectable bundle of dotfiles.
pub struct Bundle {
    pub id: String,
    pub name: String,
    pub description: String,
    pub paths: Vec<String>,
}

/// The mathematical image of a `Bundle`.
#[verifier::ext_equal]
pub ghost struct BundleV {
    pub id: Seq<char>,
    pub name: Seq<char>,
    pub description: Seq<char>,
    pub paths: Seq<Seq<char>>,
}

impl View for Bundle {
    type V = BundleV;

    open spec fn view(&self) -> BundleV {
        BundleV {
            id: self.id@,
            name: self.name@,
            description: self.description@,
            paths: self.paths.deep_view(),
        }
    }
}

impl DeepView for Bundle {
    type V = BundleV;

    open spec fn deep_view(&self) -> BundleV {
        self.view()
    }
}

/// The bundle catalog, in its fixed presentation order.
pub open spec fn spec_catalog() -> Seq<BundleV> {
    seq![
        BundleV {
            id: "core_desktop"@,
            name: "Core Desktop"@,
            description: "Hyprland, Waybar, Omarchy data, SwayOSD, WayVNC"@,
            paths: seq![
                "~/.config/hypr"@,
                "~/.config/waybar"@,
                "~/.config/omarchy"@,
                "~/.config/swayosd"@,
                "~/.config/wayvnc"@,
            ],
        },
        BundleV {
            id: "terminals"@,
            name: "Terminals"@,
            description: "Alacritty, Ghostty, Kitty configuration"@,
            paths: seq!["~/.config/alacritty"@, "~/.config/ghostty"@, "~/.config/kitty"@],
        },
        BundleV {
            id: "cli_tools"@,
            name: "CLI Tools"@,
            description: "btop, fastfetch, eza, cava, Walker launcher"@,
            paths: seq![
                "~/.config/btop"@,
                "~/.config/fastfetch"@,
                "~/.config/eza"@,
                "~/.config/cava"@,
                "~/.config/walker"@,
            ],
        },
        BundleV {
            id: "editors"@,
            name: "Editors"@,
            description: "Neovim and Typora settings"@,
            paths: seq!["~/.config/nvim"@, "~/.config/Typora"@],
        },
        BundleV {
            id: "dev_git"@,
            name: "Git Tooling"@,
            description: "git, lazygit, gh configuration"@,
            paths: seq!["~/.config/git"@, "~/.config/lazygit"@, "~/.config/gh"@],
        },
        BundleV {
            id: "creative"@,
            name: "Creative Tools"@,
            description: "Aether and Elephant assets"@,
            paths: seq!["~/.config/aether"@, "~/.config/elephant"@],
        },
        BundleV {
            id: "system"@,
            name: "System Services"@,
            description: "User-level systemd units"@,
            paths: seq!["~/.config/systemd"@],
        },
    ]
}

/// First catalog entry carrying `id`, if any.
pub open spec fn find_in(cat: Seq<BundleV>, id: Seq<char>) -> Option<BundleV>
    decreases cat.len(),
{
    if cat.len() == 0 {
        None
    } else if cat[0].id == id {
        Some(cat[0])
    } else {
        find_in(cat.drop_first(), id)
    }
}

/// The catalog entry carrying `id`, if any.
pub open spec fn spec_find(id: Seq<char>) -> Option<BundleV> {
    find_in(spec_catalog(), id)
}

/// Whether `p` is a path of some bundle named in `ids`.
pub open spec fn in_bundle_paths(ids: Seq<Seq<char>>, p: Seq<char>) -> bool {
    exists|i: int|
        0 <= i < ids.len() && match #[trigger] spec_find(ids[i]) {
            Some(b) => b.paths.contains(p),
            None => false,
        }
}

proof fn lemma_find_in_step(cat: Seq<BundleV>, id: Seq<char>, k: int)
    requires
        0 <= k <= cat.len(),
        forall|j: int| 0 <= j < k ==> (#[trigger] cat[j]).id != id,
    ensures
        k < cat.len() && cat[k].id == id ==> find_in(cat, id) == Some(cat[k]),
        k == cat.len() ==> find_in(cat, id) is None,
    decreases k,
{
    if k == 0 {
    } else {
        let rest = cat.drop_first();
        assert(cat[0].id != id);
        assert(find_in(cat, id) == find_in(rest, id));
        assert forall|j: int| 0 <= j < k - 1 implies (#[trigger] rest[j]).id != id by {
            assert(rest[j] == cat[j + 1]);
        }
        lemma_find_in_step(rest, id, k - 1);
        if k < cat.len() && cat[k].id == id {
            assert(rest[k - 1] == cat[k]);
        }
    }
}

/// Builds the bundle catalog.
pub fn all() -> (r: Vec<Bundle>)
    ensures
        r.deep_view() == spec_catalog(),
{
    let mut out: Vec<Bundle> = Vec::new();

    let mut paths: Vec<String> = Vec::new();
    paths.push("~/.config/hypr".to_owned());
    paths.push("~/.config/waybar".to_owned());
    paths.push("~/.config/omarchy".to_owned());
    paths.push("~/.config/swayosd".to_owned());
    paths.push("~/.config/wayvnc".to_owned());
    let b = Bundle {
        id: "core_desktop".to_owned(),
        name: "Core Desktop".to_owned(),
        description: "Hyprland, Waybar, Omarchy data, SwayOSD, WayVNC".to_owned(),
        paths,
    };
    proof {
        assert(b@ =~~= spec_catalog()[0]);
    }
    out.push(b);

    let mut paths: Vec<String> = Vec::new();
    paths.push("~/.config/alacritty".to_owned());
    paths.push("~/.config/ghostty".to_owned());
    paths.push("~/.config/kitty".to_owned());
    let b = Bundle {
        id: "terminals".to_owned(),
        name: "Terminals".to_owned(),
        description: "Alacritty, Ghostty, Kitty configuration".to_owned(),
        paths,
    };
    proof {
        assert(b@ =~~= spec_catalog()[1]);
    }
    out.push(b);

    let mut paths: Vec<String> = Vec::new();
    paths.push("~/.config/btop".to_owned());
    paths.push("~/.config/fastfetch".to_owned());
    paths.push("~/.config/eza".to_owned());
    paths.push("~/.config/cava".to_owned());
    paths.push("~/.config/walker".to_owned());
    let b = Bundle {
        id: "cli_tools".to_owned(),
        name: "CLI Tools".to_owned(),
        description: "btop, fastfetch, eza, cava, Walker launcher".to_owned(),
        paths,
    };
    proof {
        assert(b@ =~~= spec_catalog()[2]);
    }
    out.push(b);

    let mut paths: Vec<String> = Vec::new();
    paths.push("~/.config/nvim".to_owned());
    paths.push("~/.config/Typora".to_owned());
    let b = Bundle {
        id: "editors".to_owned(),
        name: "Editors".to_owned(),
        description: "Neovim and Typora settings".to_owned(),
        paths,
    };
    proof {
        assert(b@ =~~= spec_catalog()[3]);
    }
    out.push(b);

    let mut paths: Vec<String> = Vec::new();
    paths.push("~/.config/git".to_owned());
    paths.push("~/.config/lazygit".to_owned());
    paths.push("~/.config/gh".to_owned());
    let b = Bundle {
        id: "dev_git".to_owned(),
        name: "Git Tooling".to_owned(),
        description: "git, lazygit, gh configuration".to_owned(),
        paths,
    };
    proof {
        assert(b@ =~~= spec_catalog()[4]);
    }
    out.push(b);

    let mut paths: Vec<String> = Vec::new();
    paths.push("~/.config/aether".to_owned());
    paths.push("~/.config/elephant".to_owned());
    let b = Bundle {
        id: "creative".to_owned(),
        name: "Creative Tools".to_owned(),
        description: "Aether and Elephant assets".to_owned(),
        paths,
    };
    proof {
        assert(b@ =~~= spec_catalog()[5]);
    }
    out.push(b);

    let mut paths: Vec<String> = Vec::new();
    paths.push("~/.config/systemd".to_owned());
    let b = Bundle {
        id: "system".to_owned(),
        name: "System Services".to_owned(),
        description: "User-level systemd units".to_owned(),
        paths,
    };
    proof {
        assert(b@ =~~= spec_catalog()[6]);
    }
    out.push(b);

    proof {
        assert(out.deep_view() =~~= spec_catalog());
    }
    out
}

/// The identifiers of the bundles selected by default.
pub open spec fn spec_default_bundle_ids() -> Seq<Seq<char>> {
    seq![
        "core_desktop"@,
        "terminals"@,
        "cli_tools"@,
        "editors"@,
        "dev_git"@,
        "creative"@,
        "system"@,
    ]
}

/// Builds the default bundle selection, one id per catalog entry.
pub fn default_bundle_ids() -> (r: Vec<String>)
    ensures
        r.deep_view() == spec_default_bundle_ids(),
{
    let mut out: Vec<String> = Vec::new();
    out.push("core_desktop".to_owned());
    out.push("terminals".to_owned());
    out.push("cli_tools".to_owned());
    out.push("editors".to_owned());
    out.push("dev_git".to_owned());
    out.push("creative".to_owned());
    out.push("system".to_owned());
    proof {
        assert(out.deep_view() =~~= spec_default_bundle_ids());
    }
    out
}

/// Looks an identifier up in the catalog.
pub fn find(id: &str) -> (r: Option<Bundle>)
    ensures
        match r {
            Some(b) => spec_find(id@) == Some(b@),
            None => spec_find(id@) is None,
        },
{
    let mut cat = all();
    let mut k: usize = 0;
    while k < cat.len()
        invariant
            0 <= k <= cat@.len(),
            cat.deep_view() == spec_catalog(),
            forall|j: int| 0 <= j < k ==> (#[trigger] spec_catalog()[j]).id != id@,
        decreases cat@.len() - k,
    {
        if str_eq(cat[k].id.as_str(), id) {
            let b = cat.remove(k);
            proof {
                assert(b@ == spec_catalog()[k as int]);
                lemma_find_in_step(spec_catalog(), id@, k as int);
            }
            return Some(b);
        }
        proof {
            assert(cat.deep_view()[k as int] == spec_catalog()[k as int]);
        }
        k += 1;
    }
    proof {
        lemma_find_in_step(spec_catalog(), id@, spec_catalog().len() as int);
    }
    None
}

/// The error reported for a bundle identifier absent from the catalog.
#[derive(Debug)]
pub struct UnknownBundle {
    pub id: String,
}

impl UnknownBundle {
    /// A human-readable description of the error.
    pub fn message(&self) -> (r: String)
        ensures
            r@ == "Unknown bundle '"@ + self.id@ + "'"@,
    {
        let mut r = "Unknown bundle '".to_owned();
        r.append(self.id.as_str());
        r.append("'");
        proof {
            assert(r@ =~= "Unknown bundle '"@ + self.id@ + "'"@);
        }
        r
    }
}

/// Checks that every identifier names a catalog bundle.
pub fn ensure_known(ids: &[String]) -> (r: Result<(), UnknownBundle>)
    ensures
        r is Ok <==> (forall|i: int|
            0 <= i < ids.deep_view().len() ==> (#[trigger] spec_find(ids.deep_view()[i])) is Some),
        match r {
            Ok(()) => true,
            Err(e) => ids.deep_view().contains(e.id@) && spec_find(e.id@) is None,
        },
{
    let mut i: usize = 0;
    while i < ids.len()
        invariant
            0 <= i <= ids@.len(),
            forall|j: int| 0 <= j < i ==> (#[trigger] spec_find(ids.deep_view()[j])) is Some,
        decreases ids@.len() - i,
    {
        let probe = find(ids[i].as_str());
        if probe.is_none() {
            proof {
                assert(ids.deep_view()[i as int] == ids@[i as int]@);
            }
            return Err(UnknownBundle { id: ids[i].as_str().to_owned() });
        }
        i += 1;
    }
    Ok(())
}

/// Resolves bundle identifiers to the sorted, deduplicated union of
/// their paths; fails on the first unknown identifier.
pub fn resolve_paths(ids: &[String]) -> (r: Result<Vec<String>, UnknownBundle>)
    ensures
        r is Ok <==> (forall|i: int|
            0 <= i < ids.deep_view().len() ==> (#[trigger] spec_find(ids.deep_view()[i])) is Some),
        match r {
            Ok(v) => sorted_strict(v.deep_view()) && (forall|p: Seq<char>|
                v.deep_view().contains(p) <==> in_bundle_paths(ids.deep_view(), p)),
            Err(e) => ids.deep_view().contains(e.id@) && spec_find(e.id@) is None,
        },
{
    let mut out: Vec<String> = Vec::new();
    let mut i: usize = 0;
    proof {
        assert(forall|p: Seq<char>| !out.deep_view().contains(p));
        assert(forall|p: Seq<char>|
            !in_bundle_paths(ids.deep_view().subrange(0, 0), p));
    }
    while i < ids.len()
        invariant
            0 <= i <= ids@.len(),
            sorted_strict(out.deep_view()),
            forall|j: int| 0 <= j < i ==> (#[trigger] spec_find(ids.deep_view()[j])) is Some,
            forall|p: Seq<char>|
                #![trigger out.deep_view().contains(p)]
                out.deep_view().contains(p) <==> in_bundle_paths(
                    ids.deep_view().subrange(0, i as int),
                    p,
                ),
        decreases ids@.len() - i,
    {
        let probe = find(ids[i].as_str());
        match probe {
            None => {
                proof {
                    assert(ids.deep_view()[i as int] == ids@[i as int]@);
                }
                return Err(UnknownBundle { id: ids[i].as_str().to_owned() });
            },
            Some(b) => {
                let ghost bv = b@;
                let ghost pre_ids = ids.deep_view().subrange(0, i as int);
                let ghost cur_ids = ids.deep_view().subrange(0, i as int + 1);
                let mut j: usize = 0;
                proof {
                    assert(spec_find(ids.deep_view()[i as int]) == Some(bv));
                }
                while j < b.paths.len()
                    invariant
                        0 <= j <= b.paths@.len(),
                        0 <= i < ids@.len(),
                        b@ == bv,
                        spec_find(ids.deep_view()[i as int]) == Some(bv),
                        sorted_strict(out.deep_view()),
                        forall|p: Seq<char>|
                            #![trigger out.deep_view().contains(p)]
                            out.deep_view().contains(p) <==> (in_bundle_paths(pre_ids, p)
                                || bv.paths.subrange(0, j as int).contains(p)),
                        pre_ids == ids.deep_view().subrange(0, i as int),
                    decreases b.paths@.len() - j,
                {
                    let s = b.paths[j].as_str().to_owned();
                    proof {
                        assert(s@ == bv.paths[j as int]);
                    }
                    let ghost preout = out.deep_view();
                    insert_sorted(&mut out, s);
                    proof {
                        let prej = bv.paths.subrange(0, j as int);
                        let postj = bv.paths.subrange(0, j as int + 1);
                        assert(prej.push(bv.paths[j as int]) =~= postj);
                        assert forall|p: Seq<char>|
                            out.deep_view().contains(p) <==> (in_bundle_paths(pre_ids, p)
                                || postj.contains(p)) by {
                            assert(out.deep_view().contains(p) <==> (preout.contains(p) || p
                                == bv.paths[j as int]));
                            assert(preout.contains(p) <==> (in_bundle_paths(pre_ids, p)
                                || prej.contains(p)));
                            if postj.contains(p) {
                                let k = choose|k: int| 0 <= k < postj.len() && postj[k] == p;
                                if k < j {
                                    assert(prej[k] == p);
                                    assert(prej.contains(p));
                                } else {
                                    assert(p == bv.paths[j as int]);
                                }
                            }
                            if prej.contains(p) {
                                let k = choose|k: int| 0 <= k < prej.len() && prej[k] == p;
                                assert(postj[k] == p);
                            }
                            if p == bv.paths[j as int] {
                                assert(postj[j as int] == p);
                            }
                        }
                    }
                    j += 1;
                }
                proof {
                    assert(bv.paths.subrange(0, bv.paths.len() as int) =~= bv.paths);
                    assert(cur_ids.len() == i + 1);
                    assert(cur_ids[i as int] == ids.deep_view()[i as int]);
                    assert(spec_find(cur_ids[i as int]) == Some(bv));
                    assert forall|p: Seq<char>|
                        out.deep_view().contains(p) <==> in_bundle_paths(cur_ids, p) by {
                        if out.deep_view().contains(p) {
                            if in_bundle_paths(pre_ids, p) {
                                let w = choose|w: int|
                                    0 <= w < pre_ids.len() && match #[trigger] spec_find(
                                        pre_ids[w],
                                    ) {
                                        Some(bb) => bb.paths.contains(p),
                                        None => false,
                                    };
                                assert(cur_ids[w] == pre_ids[w]);
                                assert(in_bundle_paths(cur_ids, p));
                            } else {
                                assert(bv.paths.contains(p));
                                assert(cur_ids[i as int] == ids.deep_view()[i as int]);
                                assert(in_bundle_paths(cur_ids, p));
                            }
                        }
                        if in_bundle_paths(cur_ids, p) {
                            let w = choose|w: int|
                                0 <= w < cur_ids.len() && match #[trigger] spec_find(
                                    cur_ids[w],
                                ) {
                                    Some(bb) => bb.paths.contains(p),
                                    None => false,
                                };
                            if w < i {
                                assert(pre_ids[w] == cur_ids[w]);
                                assert(in_bundle_paths(pre_ids, p));
                            } else {
                                assert(cur_ids[w] == ids.deep_view()[i as int]);
                                assert(bv.paths.contains(p));
                            }
                        }
                    }
                }
            },
        }
        i += 1;
    }
    proof {
        assert(ids.deep_view().subrange(0, ids.deep_view().len() as int) =~= ids.deep_view());
    }
    Ok(out)
}

} // verus!
