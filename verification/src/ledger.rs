//! The symlink ledger and its persisted encoding.
//!
//! Symbolic links cannot be stored as literal entries of the working
//! tree, so a snapshot collects them in a side table keyed by
//! home-relative path and persists it as a small structured text file
//! with the fields `path`, `target` and `is_dir`.  The encoding is
//! fixed and canonical; the decoder accepts exactly the encoder's
//! output, and anything else is reported as a corrupt ledger.

use vstd::prelude::*;

verus! {

use crate::text::push_char;
use crate::text::str_eq;
use crate::text::str_starts_with;
use vstd::string::StrSliceExecFns;
use vstd::string::StringExecFns;

/// One recorded symbolic link: a home-relative path (components joined
/// with `/`), the literal link target, and whether the link points at
/// a directory.
#[derive(Debug, PartialEq)]
pub struct SymlinkEntry {
    pub path: String,
    pub target: String,
    pub is_dir: bool,
}

/// The mathematical image of a `SymlinkEntry`.
#[verifier::ext_equal]
pub ghost struct SymlinkEntryV {
    pub path: Seq<char>,
    pub target: Seq<char>,
    pub is_dir: bool,
}

impl View for SymlinkEntry {
    type V = SymlinkEntryV;

    open spec fn view(&self) -> SymlinkEntryV {
        SymlinkEntryV { path: self.path@, target: self.target@, is_dir: self.is_dir }
    }
}

impl DeepView for SymlinkEntry {
    type V = SymlinkEntryV;

    open spec fn deep_view(&self) -> SymlinkEntryV {
        self.view()
    }
}

/// The error reported for a ledger file the decoder does not accept.
#[derive(Debug)]
pub struct LedgerCorrupt;

impl LedgerCorrupt {
    /// A human-readable description of the error.
    pub fn message(&self) -> (r: String)
        ensures
            r@ == "Failed parsing symlink metadata"@,
    {
        "Failed parsing symlink metadata".to_owned()
    }
}

/// The encoding of one character inside a quoted string.
pub open spec fn esc_char(c: char) -> Seq<char> {
    if c == '"' {
        seq!['\\', '"']
    } else if c == '\\' {
        seq!['\\', '\\']
    } else if c == '\n' {
        seq!['\\', 'n']
    } else if c == '\r' {
        seq!['\\', 'r']
    } else if c == '\t' {
        seq!['\\', 't']
    } else {
        seq![c]
    }
}

/// The encoding of a whole string body.
pub open spec fn esc_str(s: Seq<char>) -> Seq<char>
    decreases s.len(),
{
    if s.len() == 0 {
        Seq::empty()
    } else {
        esc_char(s[0]) + esc_str(s.drop_first())
    }
}

pub open spec fn enc_bool(b: bool) -> Seq<char> {
    if b {
        "true"@
    } else {
        "false"@
    }
}

pub open spec fn tok_open() -> Seq<char> {
    "  {\n    \"path\": \""@
}

pub open spec fn tok_mid() -> Seq<char> {
    ",\n    \"target\": \""@
}

pub open spec fn tok_dir() -> Seq<char> {
    ",\n    \"is_dir\": "@
}

pub open spec fn tok_close() -> Seq<char> {
    "\n  }"@
}

/// The encoding of one ledger record.
pub open spec fn enc_entry(e: SymlinkEntryV) -> Seq<char> {
    tok_open() + esc_str(e.path) + seq!['"'] + tok_mid() + esc_str(e.target) + seq!['"']
        + tok_dir() + enc_bool(e.is_dir) + tok_close()
}

/// The encodings of a non-empty record list, separated by `,\n`.
pub open spec fn enc_list(l: Seq<SymlinkEntryV>) -> Seq<char>
    decreases l.len(),
{
    if l.len() == 0 {
        Seq::empty()
    } else if l.len() == 1 {
        enc_entry(l[0])
    } else {
        enc_entry(l[0]) + ",\n"@ + enc_list(l.drop_first())
    }
}

/// The canonical encoding of a ledger.
pub open spec fn spec_encode(l: Seq<SymlinkEntryV>) -> Seq<char> {
    if l.len() == 0 {
        "[]"@
    } else {
        "[\n"@ + enc_list(l) + "\n]"@
    }
}

/// Escaping one more character appends its encoding.
proof fn lemma_esc_snoc(a: Seq<char>, c: char)
    ensures
        esc_str(a.push(c)) == esc_str(a) + esc_char(c),
    decreases a.len(),
{
    if a.len() == 0 {
        assert(a.push(c).drop_first() =~= Seq::<char>::empty());
        assert(a.push(c)[0] == c);
        assert(esc_str(Seq::<char>::empty()) =~= Seq::<char>::empty());
        assert(esc_str(a.push(c)) =~= esc_char(c));
        assert(esc_str(a) + esc_char(c) =~= esc_char(c));
    } else {
        assert(a.push(c).drop_first() =~= a.drop_first().push(c));
        lemma_esc_snoc(a.drop_first(), c);
        assert(a.push(c)[0] == a[0]);
        assert(esc_str(a.push(c)) =~= esc_char(a[0]) + (esc_str(a.drop_first()) + esc_char(c)));
        assert(esc_str(a) + esc_char(c) =~= esc_char(a[0]) + (esc_str(a.drop_first()) + esc_char(
            c,
        )));
    }
}

/// Encoding one more record appends a separator and its encoding.
proof fn lemma_enc_list_snoc(l: Seq<SymlinkEntryV>, e: SymlinkEntryV)
    requires
        l.len() >= 1,
    ensures
        enc_list(l.push(e)) == enc_list(l) + ",\n"@ + enc_entry(e),
    decreases l.len(),
{
    if l.len() == 1 {
        let q = l.push(e);
        assert(q.len() == 2);
        assert(q[0] == l[0]);
        assert(q.drop_first() =~= seq![e]);
        assert(enc_list(q.drop_first()) == enc_entry(e));
        assert(enc_list(q) =~= enc_entry(l[0]) + ",\n"@ + enc_entry(e));
        assert(enc_list(l) == enc_entry(l[0]));
    } else {
        let q = l.push(e);
        assert(q[0] == l[0]);
        assert(q.drop_first() =~= l.drop_first().push(e));
        lemma_enc_list_snoc(l.drop_first(), e);
        assert(enc_list(q) =~= enc_entry(l[0]) + ",\n"@ + (enc_list(l.drop_first()) + ",\n"@
            + enc_entry(e)));
        assert(enc_list(l) + ",\n"@ + enc_entry(e) =~= enc_entry(l[0]) + ",\n"@ + (enc_list(
            l.drop_first(),
        ) + ",\n"@ + enc_entry(e)));
    }
}

/// Appends the escaped body of `s` to `out`.
fn escape_into(out: &mut String, s: &str)
    ensures
        final(out)@ == old(out)@ + esc_str(s@),
{
    let len = s.unicode_len();
    let mut i: usize = 0;
    proof {
        assert(out@ =~= old(out)@ + esc_str(s@.subrange(0, 0)));
    }
    while i < len
        invariant
            0 <= i <= len,
            len == s@.len(),
            out@ == old(out)@ + esc_str(s@.subrange(0, i as int)),
        decreases len - i,
    {
        let c = s.get_char(i);
        if c == '"' {
            push_char(out, '\\');
            push_char(out, '"');
        } else if c == '\\' {
            push_char(out, '\\');
            push_char(out, '\\');
        } else if c == '\n' {
            push_char(out, '\\');
            push_char(out, 'n');
        } else if c == '\r' {
            push_char(out, '\\');
            push_char(out, 'r');
        } else if c == '\t' {
            push_char(out, '\\');
            push_char(out, 't');
        } else {
            push_char(out, c);
        }
        proof {
            lemma_esc_snoc(s@.subrange(0, i as int), s@[i as int]);
            assert(s@.subrange(0, i as int).push(s@[i as int]) =~= s@.subrange(0, i as int + 1));
            assert(out@ =~= old(out)@ + esc_str(s@.subrange(0, i as int + 1)));
        }
        i += 1;
    }
    proof {
        assert(s@.subrange(0, s@.len() as int) =~= s@);
    }
}

/// Appends the encoding of one record to `out`.
fn entry_into(out: &mut String, e: &SymlinkEntry)
    ensures
        final(out)@ == old(out)@ + enc_entry(e@),
{
    out.append("  {\n    \"path\": \"");
    escape_into(out, e.path.as_str());
    out.append("\"");
    out.append(",\n    \"target\": \"");
    escape_into(out, e.target.as_str());
    out.append("\"");
    out.append(",\n    \"is_dir\": ");
    if e.is_dir {
        out.append("true");
    } else {
        out.append("false");
    }
    out.append("\n  }");
    proof {
        assert("\""@ =~= seq!['"']) by {
            reveal_strlit("\"");
        }
        assert(out@ =~= old(out)@ + enc_entry(e@));
    }
}

/// Encodes a ledger into its canonical text.
pub fn serialize(entries: &Vec<SymlinkEntry>) -> (r: String)
    ensures
        r@ == spec_encode(entries.deep_view()),
{
    let ghost dv = entries.deep_view();
    if entries.len() == 0 {
        let r = "[]".to_owned();
        return r;
    }
    let mut r = "[\n".to_owned();
    let mut i: usize = 0;
    while i < entries.len()
        invariant
            0 <= i <= entries@.len(),
            dv == entries.deep_view(),
            dv.len() == entries@.len(),
            dv.len() > 0,
            i == 0 ==> r@ == "[\n"@,
            i > 0 ==> r@ == "[\n"@ + enc_list(dv.subrange(0, i as int)),
        decreases entries@.len() - i,
    {
        if i > 0 {
            r.append(",\n");
        }
        let ghost pre = r@;
        entry_into(&mut r, &entries[i]);
        proof {
            assert(entries[i as int]@ == dv[i as int]);
            if i == 0 {
                assert(dv.subrange(0, 1)[0] == dv[0]);
                assert(dv.subrange(0, 1).len() == 1);
                assert(enc_list(dv.subrange(0, 1)) == enc_entry(dv[0]));
                assert(r@ =~= "[\n"@ + enc_list(dv.subrange(0, 1)));
            } else {
                lemma_enc_list_snoc(dv.subrange(0, i as int), dv[i as int]);
                assert(dv.subrange(0, i as int).push(dv[i as int]) =~= dv.subrange(
                    0,
                    i as int + 1,
                ));
                assert(r@ =~= "[\n"@ + enc_list(dv.subrange(0, i as int + 1)));
            }
        }
        i += 1;
    }
    r.append("\n]");
    proof {
        assert(dv.subrange(0, dv.len() as int) =~= dv);
        assert(r@ =~= "[\n"@ + enc_list(dv) + "\n]"@);
    }
    r
}

/// The decoding of one escape code.
pub open spec fn unesc_char(c: char) -> Option<char> {
    if c == '"' {
        Some('"')
    } else if c == '\\' {
        Some('\\')
    } else if c == 'n' {
        Some('\n')
    } else if c == 'r' {
        Some('\r')
    } else if c == 't' {
        Some('\t')
    } else {
        None
    }
}

/// Reads a quoted string body up to its closing quote; returns the
/// decoded body and the text after the quote.
pub open spec fn dec_str(s: Seq<char>) -> Option<(Seq<char>, Seq<char>)>
    decreases s.len(),
{
    if s.len() == 0 {
        None
    } else if s[0] == '"' {
        Some((Seq::empty(), s.drop_first()))
    } else if s[0] == '\\' {
        if s.len() < 2 {
            None
        } else {
            match unesc_char(s[1]) {
                None => None,
                Some(c) => match dec_str(s.skip(2)) {
                    None => None,
                    Some((t, r)) => Some((seq![c] + t, r)),
                },
            }
        }
    } else if s[0] == '\n' || s[0] == '\r' || s[0] == '\t' {
        None
    } else {
        match dec_str(s.drop_first()) {
            None => None,
            Some((t, r)) => Some((seq![s[0]] + t, r)),
        }
    }
}

/// `dec_str` accepts exactly what `esc_str` produced.
proof fn lemma_dec_str_complete(t: Seq<char>, r: Seq<char>)
    ensures
        dec_str(esc_str(t) + seq!['"'] + r) == Some((t, r)),
    decreases t.len(),
{
    let s = esc_str(t) + seq!['"'] + r;
    if t.len() == 0 {
        assert(esc_str(t) =~= Seq::<char>::empty());
        assert(s[0] == '"');
        assert(s.drop_first() =~= r);
    } else {
        let c = t[0];
        let rest = t.drop_first();
        assert(esc_str(t) == esc_char(c) + esc_str(rest));
        lemma_dec_str_complete(rest, r);
        let s2 = esc_str(rest) + seq!['"'] + r;
        if c == '"' || c == '\\' || c == '\n' || c == '\r' || c == '\t' {
            assert(esc_char(c).len() == 2);
            assert(esc_char(c)[0] == '\\');
            assert(s[0] == '\\');
            assert(s.len() >= 2);
            assert(s[1] == esc_char(c)[1]);
            assert(unesc_char(esc_char(c)[1]) == Some(c));
            assert(s.skip(2) =~= s2);
            assert(seq![c] + rest =~= t);
        } else {
            assert(esc_char(c) =~= seq![c]);
            assert(s[0] == c);
            assert(c != '"' && c != '\\');
            assert(s.drop_first() =~= s2);
            assert(seq![c] + rest =~= t);
        }
    }
}

/// What `dec_str` accepts is an escaped body, a quote, and the rest.
proof fn lemma_dec_str_sound(s: Seq<char>)
    ensures
        match dec_str(s) {
            Some((t, r)) => s == esc_str(t) + seq!['"'] + r && r.len() < s.len(),
            None => true,
        },
    decreases s.len(),
{
    if s.len() == 0 {
    } else if s[0] == '"' {
        assert(esc_str(Seq::<char>::empty()) =~= Seq::<char>::empty());
        assert(s =~= esc_str(Seq::<char>::empty()) + seq!['"'] + s.drop_first());
    } else if s[0] == '\\' {
        if s.len() >= 2 {
            match unesc_char(s[1]) {
                None => {},
                Some(c) => {
                    lemma_dec_str_sound(s.skip(2));
                    match dec_str(s.skip(2)) {
                        None => {},
                        Some((t, r)) => {
                            assert(s.skip(2) == esc_str(t) + seq!['"'] + r);
                            assert(s =~= seq![s[0], s[1]] + s.skip(2));
                            assert(esc_char(c) =~= seq![s[0], s[1]]);
                            assert(esc_str(seq![c] + t) == esc_char(c) + esc_str(
                                (seq![c] + t).drop_first(),
                            ));
                            assert((seq![c] + t).drop_first() =~= t);
                            assert(s =~= esc_str(seq![c] + t) + seq!['"'] + r);
                        },
                    }
                },
            }
        }
    } else if s[0] == '\n' || s[0] == '\r' || s[0] == '\t' {
    } else {
        lemma_dec_str_sound(s.drop_first());
        match dec_str(s.drop_first()) {
            None => {},
            Some((t, r)) => {
                assert(s.drop_first() == esc_str(t) + seq!['"'] + r);
                assert(s =~= seq![s[0]] + s.drop_first());
                assert(esc_char(s[0]) =~= seq![s[0]]);
                assert(esc_str(seq![s[0]] + t) == esc_char(s[0]) + esc_str(
                    (seq![s[0]] + t).drop_first(),
                ));
                assert((seq![s[0]] + t).drop_first() =~= t);
                assert(s =~= esc_str(seq![s[0]] + t) + seq!['"'] + r);
            },
        }
    }
}

/// Reads one encoded record; returns it and the text after it.
pub open spec fn dec_entry(s: Seq<char>) -> Option<(SymlinkEntryV, Seq<char>)> {
    if tok_open().is_prefix_of(s) {
        match dec_str(s.skip(tok_open().len() as int)) {
            None => None,
            Some((path, r1)) => {
                if tok_mid().is_prefix_of(r1) {
                    match dec_str(r1.skip(tok_mid().len() as int)) {
                        None => None,
                        Some((target, r2)) => {
                            if tok_dir().is_prefix_of(r2) {
                                let r3 = r2.skip(tok_dir().len() as int);
                                if "true"@.is_prefix_of(r3) {
                                    let r4 = r3.skip(4);
                                    if tok_close().is_prefix_of(r4) {
                                        Some(
                                            (
                                                SymlinkEntryV { path, target, is_dir: true },
                                                r4.skip(tok_close().len() as int),
                                            ),
                                        )
                                    } else {
                                        None
                                    }
                                } else if "false"@.is_prefix_of(r3) {
                                    let r4 = r3.skip(5);
                                    if tok_close().is_prefix_of(r4) {
                                        Some(
                                            (
                                                SymlinkEntryV { path, target, is_dir: false },
                                                r4.skip(tok_close().len() as int),
                                            ),
                                        )
                                    } else {
                                        None
                                    }
                                } else {
                                    None
                                }
                            } else {
                                None
                            }
                        },
                    }
                } else {
                    None
                }
            },
        }
    } else {
        None
    }
}

proof fn reveal_tokens()
    ensures
        tok_open().len() == 17,
        tok_mid().len() == 17,
        tok_dir().len() == 16,
        tok_close().len() == 4,
        "true"@.len() == 4,
        "false"@.len() == 5,
        "[\n"@.len() == 2,
        "\n]"@.len() == 2,
        "[]"@.len() == 2,
        ",\n"@.len() == 2,
        "true"@[0] == 't',
        "false"@[0] == 'f',
        "\n]"@[0] == '\n',
        ",\n"@[0] == ',',
        "[\n"@[0] == '[',
        "[]"@[0] == '[',
        "[\n"@[1] == '\n',
        "[]"@[1] == ']',
{
    reveal_strlit("  {\n    \"path\": \"");
    reveal_strlit(",\n    \"target\": \"");
    reveal_strlit(",\n    \"is_dir\": ");
    reveal_strlit("\n  }");
    reveal_strlit("true");
    reveal_strlit("false");
    reveal_strlit("[\n");
    reveal_strlit("\n]");
    reveal_strlit("[]");
    reveal_strlit(",\n");
}

/// `dec_entry` accepts exactly what `enc_entry` produced.
proof fn lemma_dec_entry_complete(e: SymlinkEntryV, r: Seq<char>)
    ensures
        dec_entry(enc_entry(e) + r) == Some((e, r)),
{
    reveal_tokens();
    let s = enc_entry(e) + r;
    assert(tok_open().is_prefix_of(s)) by {
        assert(s.subrange(0, tok_open().len() as int) =~= tok_open());
    }
    let a1 = esc_str(e.path) + seq!['"'] + (tok_mid() + esc_str(e.target) + seq!['"'] + tok_dir()
        + enc_bool(e.is_dir) + tok_close() + r);
    assert(s.skip(tok_open().len() as int) =~= a1);
    lemma_dec_str_complete(
        e.path,
        tok_mid() + esc_str(e.target) + seq!['"'] + tok_dir() + enc_bool(e.is_dir) + tok_close()
            + r,
    );
    let r1 = tok_mid() + esc_str(e.target) + seq!['"'] + tok_dir() + enc_bool(e.is_dir)
        + tok_close() + r;
    assert(dec_str(s.skip(tok_open().len() as int)) == Some((e.path, r1)));
    assert(tok_mid().is_prefix_of(r1)) by {
        assert(r1.subrange(0, tok_mid().len() as int) =~= tok_mid());
    }
    let r1b = esc_str(e.target) + seq!['"'] + (tok_dir() + enc_bool(e.is_dir) + tok_close() + r);
    assert(r1.skip(tok_mid().len() as int) =~= r1b);
    lemma_dec_str_complete(e.target, tok_dir() + enc_bool(e.is_dir) + tok_close() + r);
    let r2 = tok_dir() + enc_bool(e.is_dir) + tok_close() + r;
    assert(dec_str(r1.skip(tok_mid().len() as int)) == Some((e.target, r2)));
    assert(tok_dir().is_prefix_of(r2)) by {
        assert(r2.subrange(0, tok_dir().len() as int) =~= tok_dir());
    }
    let r3 = enc_bool(e.is_dir) + tok_close() + r;
    assert(r2.skip(tok_dir().len() as int) =~= r3);
    if e.is_dir {
        assert("true"@.is_prefix_of(r3)) by {
            assert(r3.subrange(0, 4) =~= "true"@);
        }
        let r4 = tok_close() + r;
        assert(r3.skip(4) =~= r4);
        assert(tok_close().is_prefix_of(r4)) by {
            assert(r4.subrange(0, tok_close().len() as int) =~= tok_close());
        }
        assert(r4.skip(tok_close().len() as int) =~= r);
        assert(dec_entry(s) == Some((SymlinkEntryV { path: e.path, target: e.target, is_dir: true }, r4.skip(tok_close().len() as int))));
        assert((SymlinkEntryV { path: e.path, target: e.target, is_dir: true }) =~~= e);
    } else {
        assert(!"true"@.is_prefix_of(r3)) by {
            assert(r3[0] == 'f');
        }
        assert("false"@.is_prefix_of(r3)) by {
            assert(r3.subrange(0, 5) =~= "false"@);
        }
        let r4 = tok_close() + r;
        assert(r3.skip(5) =~= r4);
        assert(tok_close().is_prefix_of(r4)) by {
            assert(r4.subrange(0, tok_close().len() as int) =~= tok_close());
        }
        assert(r4.skip(tok_close().len() as int) =~= r);
        assert(dec_entry(s) == Some((SymlinkEntryV { path: e.path, target: e.target, is_dir: false }, r4.skip(tok_close().len() as int))));
        assert((SymlinkEntryV { path: e.path, target: e.target, is_dir: false }) =~~= e);
    }
}

/// What `dec_entry` accepts is one encoded record and the rest.
proof fn lemma_dec_entry_sound(s: Seq<char>)
    ensures
        match dec_entry(s) {
            Some((e, r)) => s == enc_entry(e) + r && r.len() < s.len(),
            None => true,
        },
{
    reveal_tokens();
    if dec_entry(s) is Some {
        let a1 = s.skip(tok_open().len() as int);
        assert(s =~= tok_open() + a1);
        lemma_dec_str_sound(a1);
        let (path, r1) = dec_str(a1)->Some_0;
        assert(a1 == esc_str(path) + seq!['"'] + r1);
        let b1 = r1.skip(tok_mid().len() as int);
        assert(r1 =~= tok_mid() + b1);
        lemma_dec_str_sound(b1);
        let (target, r2) = dec_str(b1)->Some_0;
        assert(b1 == esc_str(target) + seq!['"'] + r2);
        let r3 = r2.skip(tok_dir().len() as int);
        assert(r2 =~= tok_dir() + r3);
        let (e, r) = dec_entry(s)->Some_0;
        if "true"@.is_prefix_of(r3) {
            let r4 = r3.skip(4);
            assert(r3 =~= "true"@ + r4);
            assert(r4 =~= tok_close() + r4.skip(tok_close().len() as int));
            let rr = r4.skip(tok_close().len() as int);
            assert(e == SymlinkEntryV { path, target, is_dir: true });
            assert(r == rr);
            assert(s =~= enc_entry(e) + r);
            assert(r.len() < s.len());
        } else {
            let r4 = r3.skip(5);
            assert(r3 =~= "false"@ + r4);
            assert(r4 =~= tok_close() + r4.skip(tok_close().len() as int));
            let rr = r4.skip(tok_close().len() as int);
            assert(e == SymlinkEntryV { path, target, is_dir: false });
            assert(r == rr);
            assert(s =~= enc_entry(e) + r);
            assert(r.len() < s.len());
        }
    }
}

/// Reads a non-empty record sequence terminated by the list closer.
pub open spec fn dec_entries(s: Seq<char>) -> Option<Seq<SymlinkEntryV>>
    decreases s.len(),
{
    match dec_entry(s) {
        None => None,
        Some((e, r)) => {
            if r == "\n]"@ {
                Some(seq![e])
            } else if ",\n"@.is_prefix_of(r) && 2 <= r.len() && r.len() < s.len() {
                match dec_entries(r.skip(2)) {
                    None => None,
                    Some(l) => Some(seq![e] + l),
                }
            } else {
                None
            }
        },
    }
}

/// `dec_entries` accepts exactly an encoded non-empty list.
proof fn lemma_dec_entries_complete(l: Seq<SymlinkEntryV>)
    requires
        l.len() >= 1,
    ensures
        dec_entries(enc_list(l) + "\n]"@) == Some(l),
    decreases l.len(),
{
    reveal_tokens();
    let s = enc_list(l) + "\n]"@;
    if l.len() == 1 {
        assert(s =~= enc_entry(l[0]) + "\n]"@);
        lemma_dec_entry_complete(l[0], "\n]"@);
        assert(dec_entry(s) == Some((l[0], "\n]"@)));
        assert(seq![l[0]] =~= l);
    } else {
        let rest = l.drop_first();
        let r = ",\n"@ + (enc_list(rest) + "\n]"@);
        assert(s =~= enc_entry(l[0]) + r);
        lemma_dec_entry_complete(l[0], r);
        assert(dec_entry(s) == Some((l[0], r)));
        assert(r[0] == ',');
        assert(r != "\n]"@) by {
            if r == "\n]"@ {
                assert(r[0] == '\n');
            }
        }
        assert(",\n"@.is_prefix_of(r)) by {
            assert(r.subrange(0, 2) =~= ",\n"@);
        }
        lemma_dec_entry_sound(s);
        assert(r.len() < s.len());
        assert(2 <= r.len());
        assert(r.skip(2) =~= enc_list(rest) + "\n]"@);
        lemma_dec_entries_complete(rest);
        assert(dec_entries(s) == Some(seq![l[0]] + rest));
        assert(seq![l[0]] + rest =~= l);
    }
}

/// What `dec_entries` accepts is an encoded non-empty list.
proof fn lemma_dec_entries_sound(s: Seq<char>)
    ensures
        match dec_entries(s) {
            Some(l) => l.len() >= 1 && s == enc_list(l) + "\n]"@,
            None => true,
        },
    decreases s.len(),
{
    reveal_tokens();
    match dec_entry(s) {
        None => {},
        Some((e, r)) => {
            lemma_dec_entry_sound(s);
            assert(s == enc_entry(e) + r && r.len() < s.len());
            if r == "\n]"@ {
                assert(enc_list(seq![e]) == enc_entry(e));
                assert(s =~= enc_list(seq![e]) + "\n]"@);
            } else if ",\n"@.is_prefix_of(r) && 2 <= r.len() && r.len() < s.len() {
                lemma_dec_entries_sound(r.skip(2));
                match dec_entries(r.skip(2)) {
                    None => {},
                    Some(l2) => {
                        assert(r.skip(2) == enc_list(l2) + "\n]"@);
                        assert(r.subrange(0, 2) =~= ",\n"@);
                        assert(r =~= r.subrange(0, 2) + r.skip(2));
                        assert(r =~= ",\n"@ + (enc_list(l2) + "\n]"@));
                        let full = seq![e] + l2;
                        assert(full.len() >= 2);
                        assert(full[0] == e);
                        assert(full.drop_first() =~= l2);
                        assert(enc_list(full) == enc_entry(e) + ",\n"@ + enc_list(l2));
                        assert(s =~= enc_list(full) + "\n]"@);
                    },
                }
            }
        },
    }
}

/// The full decoder: empty list, or opener, records, closer.
pub open spec fn spec_decode(s: Seq<char>) -> Option<Seq<SymlinkEntryV>> {
    if s == "[]"@ {
        Some(Seq::empty())
    } else if "[\n"@.is_prefix_of(s) {
        dec_entries(s.skip(2))
    } else {
        None
    }
}

/// Decoding inverts encoding.
pub proof fn lemma_decode_encode(l: Seq<SymlinkEntryV>)
    ensures
        spec_decode(spec_encode(l)) == Some(l),
{
    reveal_tokens();
    let s = spec_encode(l);
    if l.len() == 0 {
        assert(s == "[]"@);
        assert(Seq::<SymlinkEntryV>::empty() =~= l);
    } else {
        assert(s == "[\n"@ + enc_list(l) + "\n]"@);
        lemma_dec_entries_complete(l);
        assert(enc_list(l).len() > 0) by {
            lemma_dec_entry_complete(l[0], Seq::<char>::empty());
            lemma_enc_list_head(l);
        }
        assert(s.len() >= 5);
        assert(s != "[]"@);
        assert("[\n"@.is_prefix_of(s)) by {
            assert(s.subrange(0, 2) =~= "[\n"@);
        }
        assert(s.skip(2) =~= enc_list(l) + "\n]"@);
    }
}

/// A non-empty list's encoding begins with its head's encoding.
proof fn lemma_enc_list_head(l: Seq<SymlinkEntryV>)
    requires
        l.len() >= 1,
    ensures
        enc_list(l).len() >= enc_entry(l[0]).len(),
        enc_entry(l[0]).len() >= tok_open().len(),
{
    reveal_tokens();
}

/// Encoding inverts decoding.
pub proof fn lemma_encode_decode(s: Seq<char>)
    ensures
        match spec_decode(s) {
            Some(l) => s == spec_encode(l),
            None => true,
        },
{
    reveal_tokens();
    if s == "[]"@ {
    } else if "[\n"@.is_prefix_of(s) {
        lemma_dec_entries_sound(s.skip(2));
        match dec_entries(s.skip(2)) {
            None => {},
            Some(l) => {
                assert(l.len() >= 1);
                assert(s.skip(2) == enc_list(l) + "\n]"@);
                assert(s =~= "[\n"@ + (enc_list(l) + "\n]"@));
                assert(s =~= spec_encode(l));
            },
        }
    }
}

/// Reads a quoted string body, mirroring `dec_str`.
fn parse_str_rec(s: &str) -> (r: Option<(String, String)>)
    ensures
        match r {
            Some(p) => dec_str(s@) == Some((p.0@, p.1@)),
            None => dec_str(s@) is None,
        },
    decreases s@.len(),
{
    let len = s.unicode_len();
    if len == 0 {
        return None;
    }
    let c = s.get_char(0);
    if c == '"' {
        let rest = s.substring_char(1, len).to_owned();
        proof {
            assert(rest@ =~= s@.drop_first());
        }
        Some((String::new(), rest))
    } else if c == '\\' {
        if len < 2 {
            return None;
        }
        let x = s.get_char(1);
        let dec: char;
        if x == '"' {
            dec = '"';
        } else if x == '\\' {
            dec = '\\';
        } else if x == 'n' {
            dec = '\n';
        } else if x == 'r' {
            dec = '\r';
        } else if x == 't' {
            dec = '\t';
        } else {
            proof {
                assert(unesc_char(s@[1]) is None);
            }
            return None;
        }
        let tail = s.substring_char(2, len);
        proof {
            assert(tail@ =~= s@.skip(2));
            assert(unesc_char(s@[1]) == Some(dec));
        }
        match parse_str_rec(tail) {
            None => None,
            Some(p) => {
                let (t, rest) = p;
                let mut out = String::new();
                push_char(&mut out, dec);
                out.append(t.as_str());
                proof {
                    assert(out@ =~= seq![dec] + t@);
                }
                Some((out, rest))
            },
        }
    } else if c == '\n' || c == '\r' || c == '\t' {
        None
    } else {
        let tail = s.substring_char(1, len);
        proof {
            assert(tail@ =~= s@.drop_first());
        }
        match parse_str_rec(tail) {
            None => None,
            Some(p) => {
                let (t, rest) = p;
                let mut out = String::new();
                push_char(&mut out, c);
                out.append(t.as_str());
                proof {
                    assert(out@ =~= seq![s@[0]] + t@);
                }
                Some((out, rest))
            },
        }
    }
}

/// Reads one encoded record, mirroring `dec_entry`.
fn parse_entry(s: &str) -> (r: Option<(SymlinkEntry, String)>)
    ensures
        match r {
            Some(p) => dec_entry(s@) == Some((p.0@, p.1@)),
            None => dec_entry(s@) is None,
        },
{
    let t_open = "  {\n    \"path\": \"";
    if !str_starts_with(s, t_open) {
        return None;
    }
    let a1 = s.substring_char(t_open.unicode_len(), s.unicode_len());
    proof {
        assert(a1@ =~= s@.skip(tok_open().len() as int));
    }
    let step1 = parse_str_rec(a1);
    if step1.is_none() {
        return None;
    }
    let (path, r1) = step1.unwrap();
    let t_mid = ",\n    \"target\": \"";
    if !str_starts_with(r1.as_str(), t_mid) {
        return None;
    }
    let b1 = r1.as_str().substring_char(t_mid.unicode_len(), r1.as_str().unicode_len());
    proof {
        assert(b1@ =~= r1@.skip(tok_mid().len() as int));
    }
    let step2 = parse_str_rec(b1);
    if step2.is_none() {
        return None;
    }
    let (target, r2) = step2.unwrap();
    let t_dir = ",\n    \"is_dir\": ";
    if !str_starts_with(r2.as_str(), t_dir) {
        return None;
    }
    let r3 = r2.as_str().substring_char(t_dir.unicode_len(), r2.as_str().unicode_len());
    proof {
        assert(r3@ =~= r2@.skip(tok_dir().len() as int));
    }
    let is_dir: bool;
    let boollen: usize;
    if str_starts_with(r3, "true") {
        is_dir = true;
        boollen = 4;
        proof {
            reveal_tokens();
        }
    } else if str_starts_with(r3, "false") {
        is_dir = false;
        boollen = 5;
        proof {
            reveal_tokens();
        }
    } else {
        return None;
    }
    let r4 = r3.substring_char(boollen, r3.unicode_len());
    proof {
        reveal_tokens();
        if is_dir {
            assert(r4@ =~= r3@.skip(4));
        } else {
            assert(r4@ =~= r3@.skip(5));
        }
    }
    let t_close = "\n  }";
    if !str_starts_with(r4, t_close) {
        return None;
    }
    let rest = r4.substring_char(t_close.unicode_len(), r4.unicode_len()).to_owned();
    proof {
        assert(rest@ =~= r4@.skip(tok_close().len() as int));
    }
    Some((SymlinkEntry { path, target, is_dir }, rest))
}

/// Reads an encoded record list, mirroring `dec_entries`.
fn parse_entries(s: &str) -> (r: Option<Vec<SymlinkEntry>>)
    ensures
        match r {
            Some(v) => dec_entries(s@) == Some(v.deep_view()),
            None => dec_entries(s@) is None,
        },
    decreases s@.len(),
{
    let step = parse_entry(s);
    match step {
        None => None,
        Some(p) => {
            let (e, rest) = p;
            let ghost ev = e@;
            if str_eq(rest.as_str(), "\n]") {
                let mut v: Vec<SymlinkEntry> = Vec::new();
                v.push(e);
                proof {
                    assert(v.deep_view() =~= seq![ev]);
                }
                Some(v)
            } else {
                let rlen = rest.as_str().unicode_len();
                let slen = s.unicode_len();
                if str_starts_with(rest.as_str(), ",\n") && 2 <= rlen && rlen < slen {
                    let tail = rest.as_str().substring_char(2, rlen);
                    proof {
                        assert(tail@ =~= rest@.skip(2));
                    }
                    match parse_entries(tail) {
                        None => None,
                        Some(mut v2) => {
                            let ghost l2 = v2.deep_view();
                            let mut v: Vec<SymlinkEntry> = Vec::new();
                            v.push(e);
                            v.append(&mut v2);
                            proof {
                                assert(v.deep_view() =~= seq![ev] + l2);
                            }
                            Some(v)
                        },
                    }
                } else {
                    None
                }
            }
        },
    }
}

/// Decodes a ledger file; accepts exactly the canonical encodings and
/// reports everything else as corrupt.
pub fn deserialize(s: &str) -> (r: Result<Vec<SymlinkEntry>, LedgerCorrupt>)
    ensures
        match r {
            Ok(v) => s@ == spec_encode(v.deep_view()),
            Err(_) => forall|l: Seq<SymlinkEntryV>| s@ != spec_encode(l),
        },
{
    if str_eq(s, "[]") {
        let v: Vec<SymlinkEntry> = Vec::new();
        proof {
            assert(v.deep_view() =~= Seq::<SymlinkEntryV>::empty());
        }
        Ok(v)
    } else if str_starts_with(s, "[\n") {
        proof {
            reveal_tokens();
        }
        let tail = s.substring_char(2, s.unicode_len());
        proof {
            assert(tail@ =~= s@.skip(2));
        }
        match parse_entries(tail) {
            Some(v) => {
                proof {
                    assert(spec_decode(s@) == Some(v.deep_view()));
                    lemma_encode_decode(s@);
                }
                Ok(v)
            },
            None => {
                proof {
                    assert(spec_decode(s@) is None);
                    assert forall|l: Seq<SymlinkEntryV>| s@ != spec_encode(l) by {
                        if s@ == spec_encode(l) {
                            lemma_decode_encode(l);
                        }
                    }
                }
                Err(LedgerCorrupt)
            },
        }
    } else {
        proof {
            assert(spec_decode(s@) is None);
            assert forall|l: Seq<SymlinkEntryV>| s@ != spec_encode(l) by {
                if s@ == spec_encode(l) {
                    lemma_decode_encode(l);
                }
            }
        }
        Err(LedgerCorrupt)
    }
}

/// Entries strictly ascending by path, hence uniquely keyed.
pub open spec fn led_sorted(l: Seq<SymlinkEntryV>) -> bool {
    forall|i: int, j: int|
        0 <= i < j < l.len() ==> crate::text::lex_lt((#[trigger] l[i]).path, (#[trigger] l[j]).path)
}

/// Some entry of `l` carries the path `k`.
pub open spec fn led_has_key(l: Seq<SymlinkEntryV>, k: Seq<char>) -> bool {
    exists|i: int| 0 <= i < l.len() && (#[trigger] l[i]).path == k
}

/// Inserts `e` into a ledger sorted by path; an entry whose path is
/// already registered is dropped, so the first registration wins.
pub fn register_symlink(entries: &mut Vec<SymlinkEntry>, e: SymlinkEntry)
    requires
        led_sorted(old(entries).deep_view()),
    ensures
        led_sorted(final(entries).deep_view()),
        forall|ev: SymlinkEntryV|
            final(entries).deep_view().contains(ev) <==> (old(entries).deep_view().contains(ev)
                || (ev == e@ && !led_has_key(old(entries).deep_view(), e@.path))),
{
    let ghost orig = entries.deep_view();
    let ghost ev0 = e@;
    let mut i: usize = 0;
    while i < entries.len() && !crate::text::str_le(e.path.as_str(), entries[i].path.as_str())
        invariant
            0 <= i <= entries@.len(),
            entries.deep_view() == orig,
            old(entries).deep_view() == orig,
            ev0 == e@,
            led_sorted(orig),
            forall|j: int| 0 <= j < i ==> !crate::text::lex_le(ev0.path, (#[trigger] orig[j]).path),
        decreases entries@.len() - i,
    {
        i += 1;
    }
    proof {
        assert forall|j: int|
            0 <= j < i implies crate::text::lex_lt((#[trigger] orig[j]).path, ev0.path) by {
            crate::text::lemma_lex_total(ev0.path, orig[j].path);
            if orig[j].path == ev0.path {
                assert(crate::text::lex_le(ev0.path, orig[j].path));
            }
        }
    }
    if i < entries.len() && crate::text::str_eq(entries[i].path.as_str(), e.path.as_str()) {
        proof {
            assert(orig[i as int].path == ev0.path);
            assert(led_has_key(orig, ev0.path));
            assert(forall|ev: SymlinkEntryV|
                entries.deep_view().contains(ev) <==> (orig.contains(ev) || (ev == ev0
                    && !led_has_key(orig, ev0.path))));
        }
        return ;
    }
    proof {
        if i < orig.len() {
            assert(crate::text::lex_le(ev0.path, orig[i as int].path));
            assert(orig[i as int].path != ev0.path);
            assert(crate::text::lex_lt(ev0.path, orig[i as int].path));
        }
        assert forall|j: int| 0 <= j < orig.len() implies (#[trigger] orig[j]).path != ev0.path by {
            if j < i {
                assert(crate::text::lex_lt(orig[j].path, ev0.path));
            } else {
                if orig[j].path == ev0.path {
                    assert(i < orig.len());
                    if j == i {
                        assert(crate::text::lex_lt(ev0.path, orig[i as int].path));
                        assert(false);
                    } else {
                        assert(crate::text::lex_lt(orig[i as int].path, orig[j].path));
                        crate::text::lemma_lex_antisymmetric(ev0.path, orig[i as int].path);
                        assert(false);
                    }
                }
            }
        }
        assert(!led_has_key(orig, ev0.path));
    }
    entries.insert(i, e);
    proof {
        let cur = entries.deep_view();
        assert(entries@.len() == orig.len() + 1);
        assert forall|k: int| 0 <= k < cur.len() implies cur[k] == (if k < i {
            orig[k]
        } else if k == i {
            ev0
        } else {
            orig[k - 1]
        }) by {
            assert(entries@ == old(entries)@.insert(i as int, entries@[i as int]));
        }
        assert forall|a: int, b: int| 0 <= a < b < cur.len() implies crate::text::lex_lt(
            (#[trigger] cur[a]).path,
            (#[trigger] cur[b]).path,
        ) by {
            if a < i && b < i {
            } else if a < i && b == i {
                assert(crate::text::lex_lt(orig[a].path, ev0.path));
            } else if a < i && b > i {
                assert(crate::text::lex_lt(orig[a].path, orig[b - 1].path));
            } else if a == i && b > i {
                assert(i < orig.len());
                if b - 1 > i {
                    assert(crate::text::lex_lt(orig[i as int].path, orig[b - 1].path));
                    crate::text::lemma_lex_transitive(
                        ev0.path,
                        orig[i as int].path,
                        orig[b - 1].path,
                    );
                    if ev0.path == orig[b - 1].path {
                        crate::text::lemma_lex_antisymmetric(ev0.path, orig[i as int].path);
                    }
                } else {
                    assert(crate::text::lex_lt(ev0.path, orig[i as int].path));
                }
            } else {
                assert(a > i && b > i);
                assert(crate::text::lex_lt(orig[a - 1].path, orig[b - 1].path));
            }
        }
        assert forall|ev: SymlinkEntryV|
            cur.contains(ev) <==> (orig.contains(ev) || (ev == ev0 && !led_has_key(
                orig,
                ev0.path,
            ))) by {
            if cur.contains(ev) {
                let k = choose|k: int| 0 <= k < cur.len() && cur[k] == ev;
                if k < i {
                    assert(orig[k] == ev);
                    assert(orig.contains(ev));
                } else if k > i {
                    assert(orig[k - 1] == ev);
                    assert(orig.contains(ev));
                }
            }
            if orig.contains(ev) {
                let k = choose|k: int| 0 <= k < orig.len() && orig[k] == ev;
                if k < i {
                    assert(cur[k] == ev);
                } else {
                    assert(cur[k + 1] == ev);
                }
                assert(cur.contains(ev));
            }
            if ev == ev0 {
                assert(cur[i as int] == ev);
                assert(cur.contains(ev));
            }
        }
    }
}

} // verus!
