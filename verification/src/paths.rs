//! Path specs and home-relative paths.
//!
//! A configured path spec is a string that may use `~` for the home
//! directory.  The engines identify every tracked item by its
//! home-relative path, kept as a vector of `/`-free components.

use vstd::prelude::*;

verus! {

use vstd::string::StrSliceExecFns;
use vstd::string::StringExecFns;
use crate::text::str_eq;
use crate::text::str_starts_with;

/// A valid path component: non-empty and free of separators.
pub open spec fn valid_comp(c: Seq<char>) -> bool {
    c.len() > 0 && !c.contains('/')
}

/// Position of the first `/` in `s`, or `s.len()` if there is none.
pub open spec fn sep_pos(s: Seq<char>) -> nat
    decreases s.len(),
{
    if s.len() == 0 {
        0
    } else if s[0] == '/' {
        0
    } else {
        (1 + sep_pos(s.drop_first())) as nat
    }
}

pub proof fn lemma_sep_pos(s: Seq<char>)
    ensures
        sep_pos(s) <= s.len(),
        forall|j: int| 0 <= j < sep_pos(s) ==> s[j] != '/',
        sep_pos(s) < s.len() ==> s[sep_pos(s) as int] == '/',
    decreases s.len(),
{
    if s.len() == 0 {
    } else if s[0] == '/' {
    } else {
        lemma_sep_pos(s.drop_first());
        assert forall|j: int| 0 <= j < sep_pos(s) implies s[j] != '/' by {
            if j > 0 {
                assert(s[j] == s.drop_first()[j - 1]);
            }
        }
        if sep_pos(s) < s.len() {
            assert(s[sep_pos(s) as int] == s.drop_first()[sep_pos(s) as int - 1]);
        }
    }
}

/// The components of `s`: maximal `/`-free chunks, empty chunks dropped.
pub open spec fn spec_split(s: Seq<char>) -> Seq<Seq<char>>
    decreases s.len(),
{
    if s.len() == 0 {
        Seq::empty()
    } else {
        let p = sep_pos(s);
        let head = s.subrange(0, p as int);
        let rest = if p < s.len() {
            s.subrange(p as int + 1, s.len() as int)
        } else {
            Seq::empty()
        };
        if p > 0 {
            seq![head] + spec_split(rest)
        } else {
            spec_split(rest)
        }
    }
}

/// Every component produced by `spec_split` is valid.
proof fn lemma_split_valid(s: Seq<char>)
    ensures
        forall|i: int| 0 <= i < spec_split(s).len() ==> #[trigger] valid_comp(spec_split(s)[i]),
    decreases s.len(),
{
    if s.len() == 0 {
    } else {
        lemma_sep_pos(s);
        let p = sep_pos(s);
        let rest = if p < s.len() {
            s.subrange(p as int + 1, s.len() as int)
        } else {
            Seq::<char>::empty()
        };
        lemma_split_valid(rest);
        if p > 0 {
            let head = s.subrange(0, p as int);
            assert(!head.contains('/')) by {
                assert forall|j: int| 0 <= j < head.len() implies head[j] != '/' by {
                    assert(head[j] == s[j]);
                }
            }
            assert(valid_comp(head));
            assert(spec_split(s) == seq![head] + spec_split(rest));
            assert forall|i: int|
                0 <= i < spec_split(s).len() implies #[trigger] valid_comp(spec_split(s)[i]) by {
                if i == 0 {
                    assert(spec_split(s)[i] == head);
                } else {
                    assert(spec_split(s)[i] == spec_split(rest)[i - 1]);
                    assert(valid_comp(spec_split(rest)[i - 1]));
                }
            }
        } else {
            assert(spec_split(s) == spec_split(rest));
            assert forall|i: int|
                0 <= i < spec_split(s).len() implies #[trigger] valid_comp(spec_split(s)[i]) by {
                assert(spec_split(s)[i] == spec_split(rest)[i]);
                assert(valid_comp(spec_split(rest)[i]));
            }
        }
    }
}

/// The components joined with `/` between them.
pub open spec fn spec_join(p: Seq<Seq<char>>) -> Seq<char>
    decreases p.len(),
{
    if p.len() == 0 {
        Seq::empty()
    } else if p.len() == 1 {
        p[0]
    } else {
        p[0] + seq!['/'] + spec_join(p.drop_first())
    }
}

proof fn lemma_sep_pos_of_comp(c: Seq<char>, tail: Seq<char>)
    requires
        valid_comp(c),
        tail.len() == 0 || tail[0] == '/',
    ensures
        sep_pos(c + tail) == c.len(),
    decreases c.len(),
{
    let s = c + tail;
    assert(s[0] == c[0]);
    assert(s[0] != '/');
    if c.len() == 1 {
        assert(s.drop_first() =~= tail);
        if tail.len() == 0 {
            assert(sep_pos(tail) == 0);
        } else {
            assert(sep_pos(tail) == 0);
        }
    } else {
        let c2 = c.drop_first();
        assert(!c2.contains('/')) by {
            assert forall|j: int| 0 <= j < c2.len() implies c2[j] != '/' by {
                assert(c2[j] == c[j + 1]);
            }
        }
        assert(s.drop_first() =~= c2 + tail);
        lemma_sep_pos_of_comp(c2, tail);
    }
}

/// Splitting the join of valid components gives the components back.
pub proof fn lemma_split_join(p: Seq<Seq<char>>)
    requires
        forall|i: int| 0 <= i < p.len() ==> #[trigger] valid_comp(p[i]),
    ensures
        spec_split(spec_join(p)) == p,
    decreases p.len(),
{
    if p.len() == 0 {
        assert(spec_split(spec_join(p)) =~= p);
    } else if p.len() == 1 {
        let c = p[0];
        assert(valid_comp(c));
        let s = spec_join(p);
        assert(s == c);
        lemma_sep_pos_of_comp(c, Seq::<char>::empty());
        assert(c + Seq::<char>::empty() =~= c);
        assert(sep_pos(s) == c.len());
        assert(s.subrange(0, sep_pos(s) as int) =~= c);
        assert(spec_split(s) =~= seq![c] + spec_split(Seq::<char>::empty()));
        assert(spec_split(s) =~= p);
    } else {
        let c = p[0];
        let rest = p.drop_first();
        let s = spec_join(p);
        let tail = seq!['/'] + spec_join(rest);
        assert(valid_comp(c));
        assert(s =~= c + tail);
        lemma_sep_pos_of_comp(c, tail);
        assert(sep_pos(s) == c.len());
        assert(c.len() > 0);
        assert(c.len() < s.len());
        let head = s.subrange(0, sep_pos(s) as int);
        let after = s.subrange(sep_pos(s) as int + 1, s.len() as int);
        assert(spec_split(s) == seq![head] + spec_split(after));
        assert(head =~= c);
        assert(after =~= spec_join(rest));
        lemma_split_join(rest);
        assert(spec_split(after) == rest);
        assert(spec_split(s) =~= p);
    }
}

/// Splits a string into its `/`-separated components.
pub fn split_components(s: &str) -> (r: Vec<String>)
    ensures
        r.deep_view() == spec_split(s@),
        valid_key(r.deep_view()),
    decreases s@.len(),
{
    proof {
        lemma_split_valid(s@);
    }
    let len = s.unicode_len();
    if len == 0 {
        let r: Vec<String> = Vec::new();
        proof {
            assert(r.deep_view() =~= spec_split(s@));
        }
        return r;
    }
    let mut i: usize = 0;
    while i < len && s.get_char(i) != '/'
        invariant
            0 <= i <= len,
            len == s@.len(),
            forall|j: int| 0 <= j < i ==> s@[j] != '/',
        decreases len - i,
    {
        i += 1;
    }
    proof {
        lemma_sep_pos(s@);
        assert(i == len || s@[i as int] == '/');
        if i < sep_pos(s@) {
            assert(s@[i as int] != '/');
            assert(false);
        }
        if sep_pos(s@) < i {
            assert(s@[sep_pos(s@) as int] != '/');
            assert(false);
        }
        assert(i == sep_pos(s@));
    }
    let mut out: Vec<String> = Vec::new();
    if i > 0 {
        let head = s.substring_char(0, i);
        out.push(head.to_owned());
        proof {
            assert(out.deep_view() =~~= seq![s@.subrange(0, i as int)]);
        }
    }
    let ghost first: Seq<Seq<char>> = if i > 0 {
        seq![s@.subrange(0, i as int)]
    } else {
        Seq::empty()
    };
    proof {
        assert(out.deep_view() =~~= first);
    }
    if i < len {
        let rest = s.substring_char(i + 1, len);
        proof {
            assert(rest@ == s@.subrange(i as int + 1, s@.len() as int));
        }
        let mut tail = split_components(rest);
        let ghost tail_view = tail.deep_view();
        out.append(&mut tail);
        proof {
            assert(spec_split(s@) == first + spec_split(rest@));
            assert(out.deep_view() =~~= first + tail_view);
            assert(out.deep_view() =~~= spec_split(s@));
        }
    } else {
        proof {
            assert(spec_split(Seq::<char>::empty()) =~= Seq::<Seq<char>>::empty());
            assert(spec_split(s@) == first + spec_split(Seq::<char>::empty()));
            assert(out.deep_view() =~~= spec_split(s@));
        }
    }
    out
}

/// The spec with `~` expanded to the home directory.
pub open spec fn spec_expand(raw: Seq<char>, home: Seq<char>) -> Seq<char> {
    if raw == "~"@ {
        home
    } else if raw.len() >= 2 && raw[0] == '~' && raw[1] == '/' {
        home + raw.drop_first()
    } else {
        raw
    }
}

/// Expands a leading `~` or `~/` in `raw` to `home`; any other string
/// is returned unchanged.
pub fn expand_path(raw: &str, home: &str) -> (r: String)
    ensures
        r@ == spec_expand(raw@, home@),
{
    proof {
        reveal_strlit("~");
    }
    let len = raw.unicode_len();
    if len == 1 && raw.get_char(0) == '~' {
        proof {
            assert(raw@ =~= "~"@);
        }
        home.to_owned()
    } else if len >= 2 && raw.get_char(0) == '~' && raw.get_char(1) == '/' {
        proof {
            assert(raw@ != "~"@);
        }
        let mut r = home.to_owned();
        let rest = raw.substring_char(1, len);
        r.append(rest);
        proof {
            assert(rest@ =~= raw@.drop_first());
        }
        r
    } else {
        proof {
            if raw@ == "~"@ {
                assert(raw@.len() == 1 && raw@[0] == '~');
                assert(false);
            }
        }
        raw.to_owned()
    }
}

/// The home-relative components of `p`, if `p` lies strictly under `home`.
pub open spec fn spec_rel_to_home(p: Seq<char>, home: Seq<char>) -> Option<Seq<Seq<char>>> {
    if home.len() > 0 && (home + "/"@).is_prefix_of(p) {
        let comps = spec_split(p.subrange(home.len() as int + 1, p.len() as int));
        if comps.len() > 0 {
            Some(comps)
        } else {
            None
        }
    } else {
        None
    }
}

/// Strips the home prefix from `path` and splits the remainder; `None`
/// when `path` does not lie strictly under `home`.
pub fn relative_to_home(path: &str, home: &str) -> (r: Option<Vec<String>>)
    ensures
        match r {
            Some(v) => Some(v.deep_view()) == spec_rel_to_home(path@, home@) && v.len() > 0
                && valid_key(v.deep_view()),
            None => spec_rel_to_home(path@, home@) is None,
        },
{
    proof {
        reveal_strlit("/");
    }
    let hlen = home.unicode_len();
    if hlen == 0 {
        return None;
    }
    let mut prefix = home.to_owned();
    prefix.append("/");
    proof {
        assert(prefix@ =~= home@ + "/"@);
    }
    if !str_starts_with(path, prefix.as_str()) {
        return None;
    }
    let plen = path.unicode_len();
    proof {
        assert(prefix@.len() == home@.len() + 1);
    }
    let rest = path.substring_char(hlen + 1, plen);
    proof {
        assert(rest@ =~= path@.subrange(home@.len() as int + 1, path@.len() as int));
    }
    let comps = split_components(rest);
    if comps.len() > 0 {
        proof {
            assert(comps.deep_view().len() == comps@.len());
        }
        Some(comps)
    } else {
        proof {
            assert(comps.deep_view().len() == comps@.len());
        }
        None
    }
}

/// The home-relative components a path spec resolves to, if any.
pub open spec fn spec_resolve(raw: Seq<char>, home: Seq<char>) -> Option<Seq<Seq<char>>> {
    spec_rel_to_home(spec_expand(raw, home), home)
}

/// Expands a path spec and resolves it to home-relative components;
/// `None` when the expansion does not lie strictly under `home`.
pub fn resolve_spec(raw: &str, home: &str) -> (r: Option<Vec<String>>)
    ensures
        match r {
            Some(v) => Some(v.deep_view()) == spec_resolve(raw@, home@) && v.len() > 0
                && valid_key(v.deep_view()),
            None => spec_resolve(raw@, home@) is None,
        },
{
    let expanded = expand_path(raw, home);
    relative_to_home(expanded.as_str(), home)
}

/// Joins components with `/` between them.
pub fn join_components(p: &Vec<String>) -> (r: String)
    ensures
        r@ == spec_join(p.deep_view()),
{
    let mut r = String::new();
    if p.len() == 0 {
        return r;
    }
    r.append(p[0].as_str());
    let mut i: usize = 1;
    proof {
        assert(r@ =~= spec_join(p.deep_view().subrange(0, 1)));
    }
    while i < p.len()
        invariant
            1 <= i <= p@.len(),
            r@ == spec_join(p.deep_view().subrange(0, i as int)),
        decreases p@.len() - i,
    {
        r.append("/");
        r.append(p[i].as_str());
        proof {
            reveal_strlit("/");
            assert("/"@ =~= seq!['/']);
            lemma_join_snoc(p.deep_view().subrange(0, i as int), p.deep_view()[i as int]);
            assert(p.deep_view().subrange(0, i as int).push(p.deep_view()[i as int]) =~= p
                .deep_view()
                .subrange(0, i as int + 1));
        }
        i += 1;
    }
    proof {
        assert(p.deep_view().subrange(0, p@.len() as int) =~= p.deep_view());
    }
    r
}

/// Joining after appending one component appends `/` and the component.
pub proof fn lemma_join_snoc(p: Seq<Seq<char>>, c: Seq<char>)
    requires
        p.len() > 0,
    ensures
        spec_join(p.push(c)) == spec_join(p) + seq!['/'] + c,
    decreases p.len(),
{
    if p.len() == 1 {
        let q = p.push(c);
        assert(q.drop_first() =~= seq![c]);
        assert(spec_join(q.drop_first()) == c);
        assert(q[0] == p[0]);
        assert(spec_join(q) =~= p[0] + seq!['/'] + c);
        assert(spec_join(p) == p[0]);
    } else {
        lemma_join_snoc(p.drop_first(), c);
        let q = p.push(c);
        assert(q.drop_first() =~= p.drop_first().push(c));
        assert(q[0] == p[0]);
        assert(spec_join(q) =~= p[0] + seq!['/'] + spec_join(p.drop_first().push(c)));
        assert(spec_join(q) =~= p[0] + seq!['/'] + (spec_join(p.drop_first()) + seq!['/'] + c));
        assert(spec_join(p) + seq!['/'] + c =~= p[0] + seq!['/'] + (spec_join(p.drop_first())
            + seq!['/'] + c));
    }
}

/// The reserved location of the symlink ledger inside a working tree.
pub open spec fn spec_metadata_rel() -> Seq<Seq<char>> {
    seq![".omarchy-syncd"@, "symlinks.json"@]
}

/// The home-relative components of the symlink ledger file.
pub fn metadata_path() -> (r: Vec<String>)
    ensures
        r.deep_view() == spec_metadata_rel(),
{
    let mut r: Vec<String> = Vec::new();
    r.push(".omarchy-syncd".to_owned());
    r.push("symlinks.json".to_owned());
    proof {
        assert(r.deep_view() =~~= spec_metadata_rel());
    }
    r
}

/// Equality of two component vectors.
pub fn rel_eq(a: &Vec<String>, b: &Vec<String>) -> (r: bool)
    ensures
        r == (a.deep_view() == b.deep_view()),
{
    if a.len() != b.len() {
        proof {
            assert(a.deep_view().len() != b.deep_view().len());
        }
        return false;
    }
    let mut i: usize = 0;
    while i < a.len()
        invariant
            0 <= i <= a@.len(),
            a@.len() == b@.len(),
            forall|j: int| 0 <= j < i ==> a.deep_view()[j] == b.deep_view()[j],
        decreases a@.len() - i,
    {
        if !str_eq(a[i].as_str(), b[i].as_str()) {
            proof {
                assert(a.deep_view()[i as int] != b.deep_view()[i as int]);
            }
            return false;
        }
        i += 1;
    }
    proof {
        assert(a.deep_view() =~= b.deep_view());
    }
    true
}

/// Tests whether `a` is a (not necessarily strict) prefix of `b`.
pub fn rel_prefix(a: &Vec<String>, b: &Vec<String>) -> (r: bool)
    ensures
        r == a.deep_view().is_prefix_of(b.deep_view()),
{
    if a.len() > b.len() {
        proof {
            assert(!a.deep_view().is_prefix_of(b.deep_view()));
        }
        return false;
    }
    let mut i: usize = 0;
    while i < a.len()
        invariant
            0 <= i <= a@.len(),
            a@.len() <= b@.len(),
            forall|j: int| 0 <= j < i ==> a.deep_view()[j] == b.deep_view()[j],
        decreases a@.len() - i,
    {
        if !str_eq(a[i].as_str(), b[i].as_str()) {
            proof {
                assert(a.deep_view()[i as int] != b.deep_view()[i as int]);
                assert(!a.deep_view().is_prefix_of(b.deep_view()));
            }
            return false;
        }
        i += 1;
    }
    proof {
        assert(a.deep_view() =~= b.deep_view().subrange(0, a.deep_view().len() as int));
    }
    true
}

/// Every component of `k` is valid.
pub open spec fn valid_key(k: Seq<Seq<char>>) -> bool {
    forall|i: int| 0 <= i < k.len() ==> valid_comp(#[trigger] k[i])
}

/// On valid component paths, joining is injective.
pub proof fn lemma_join_injective(a: Seq<Seq<char>>, b: Seq<Seq<char>>)
    requires
        valid_key(a),
        valid_key(b),
        spec_join(a) == spec_join(b),
    ensures
        a == b,
{
    lemma_split_join(a);
    lemma_split_join(b);
}

} // verus!
