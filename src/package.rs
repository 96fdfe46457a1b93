//! Package identities: the structured form of an artifact file name, the
//! parser that reads it from a file name and the formatter that writes it.
use vstd::prelude::*;
use crate::text::{
    chars_of, decimal, decode_u64, ends_with, equals_at, find, has_suffix, lemma_decimal,
    lemma_digits_exclude, lemma_first_index_between, lemma_last_index_between, push_all, push_char,
    push_decimal, read_u64, rfind, string_of,
};

verus! {

/// Target architecture of an artifact.
#[allow(non_camel_case_types)]
#[derive(Clone, Copy, Debug, PartialEq, Eq, Structural)]
pub enum Arch {
    i686,
    x86_64,
    any,
}

/// The literal token of an architecture in a file name.
pub open spec fn arch_token(a: Arch) -> Seq<char> {
    match a {
        Arch::i686 => seq!['i', '6', '8', '6'],
        Arch::x86_64 => seq!['x', '8', '6', '_', '6', '4'],
        Arch::any => seq!['a', 'n', 'y'],
    }
}

/// The architecture whose token is exactly `s`, if any.
pub open spec fn decode_arch(s: Seq<char>) -> Option<Arch> {
    if s == arch_token(Arch::i686) {
        Some(Arch::i686)
    } else if s == arch_token(Arch::x86_64) {
        Some(Arch::x86_64)
    } else if s == arch_token(Arch::any) {
        Some(Arch::any)
    } else {
        None
    }
}

impl Arch {
    /// The literal token of this architecture.
    pub fn token(&self) -> (r: Vec<char>)
        ensures
            r@ == arch_token(*self),
    {
        let r = match self {
            Arch::i686 => vec!['i', '6', '8', '6'],
            Arch::x86_64 => vec!['x', '8', '6', '_', '6', '4'],
            Arch::any => vec!['a', 'n', 'y'],
        };
        assert(r@ =~= arch_token(*self));
        r
    }
}

/// The mathematical content of a package reference.
pub struct PackageModel {
    pub pkgname: Seq<char>,
    pub pkgver: Seq<char>,
    pub pkgrel: u64,
    pub epoch: u64,
    pub arch: Arch,
    pub binary: bool,
    pub signed: bool,
}

/// One observed artifact: a package identity and which of its files, the
/// payload and the detached signature, are present.
#[derive(Debug)]
pub struct Package {
    pkgname: String,
    pkgver: String,
    pkgrel: u64,
    epoch: u64,
    arch: Arch,
    binary: bool,
    signature: bool,
}

impl View for Package {
    type V = PackageModel;

    closed spec fn view(&self) -> PackageModel {
        PackageModel {
            pkgname: self.pkgname@,
            pkgver: self.pkgver@,
            pkgrel: self.pkgrel,
            epoch: self.epoch,
            arch: self.arch,
            binary: self.binary,
            signed: self.signature,
        }
    }
}

/// Two references name the same package: they agree on everything but the
/// presence flags.
pub open spec fn same_identity(a: PackageModel, b: PackageModel) -> bool {
    &&& a.pkgname == b.pkgname
    &&& a.pkgver == b.pkgver
    &&& a.pkgrel == b.pkgrel
    &&& a.epoch == b.epoch
    &&& a.arch == b.arch
}

/// The suffix of a detached signature.
pub open spec fn sig_suffix() -> Seq<char> {
    seq!['.', 's', 'i', 'g']
}

/// The suffix of a package archive.
pub open spec fn pkg_suffix() -> Seq<char> {
    seq!['.', 'p', 'k', 'g', '.', 't', 'a', 'r', '.', 'x', 'z']
}

/// The version field of a file name: `pkgver`, preceded by `epoch:` when
/// the epoch is not zero.
pub open spec fn version_text(epoch: u64, pkgver: Seq<char>) -> Seq<char> {
    if epoch == 0 {
        pkgver
    } else {
        decimal(epoch as nat).push(':') + pkgver
    }
}

/// The canonical file name of a package reference:
/// `NAME-[EPOCH:]VER-REL-ARCH.pkg.tar.xz`, then `.sig` for a signature.
pub open spec fn filename_of(m: PackageModel) -> Seq<char> {
    m.pkgname + seq!['-'] + version_text(m.epoch, m.pkgver) + seq!['-'] + decimal(m.pkgrel as nat)
        + seq!['-'] + arch_token(m.arch) + pkg_suffix() + if m.signed {
        sig_suffix()
    } else {
        Seq::<char>::empty()
    }
}

/// The epoch and the version read from a version field: split on its first
/// `:`; without one the epoch is zero. The version must not be empty.
pub open spec fn decode_version(s: Seq<char>) -> Option<(u64, Seq<char>)> {
    match s.index_of_first(':') {
        None => if s.len() > 0 {
            Some((0u64, s))
        } else {
            None
        },
        Some(j) => match decode_u64(s.subrange(0, j)) {
            Some(e) => if j + 1 < s.len() {
                Some((e, s.subrange(j + 1, s.len() as int)))
            } else {
                None
            },
            None => None,
        },
    }
}

/// The reference described by a file name stripped of its suffixes,
/// `NAME-VERSION-REL-ARCH`, split at its three last dashes.
pub open spec fn decode_fields(body: Seq<char>, signed: bool) -> Option<PackageModel> {
    match body.index_of_last('-') {
        None => None,
        Some(i3) => {
            let rest = body.subrange(0, i3);
            match rest.index_of_last('-') {
                None => None,
                Some(i2) => {
                    let head = rest.subrange(0, i2);
                    match head.index_of_last('-') {
                        None => None,
                        Some(i1) => match (
                            decode_arch(body.subrange(i3 + 1, body.len() as int)),
                            decode_u64(rest.subrange(i2 + 1, rest.len() as int)),
                            decode_version(head.subrange(i1 + 1, head.len() as int)),
                        ) {
                            (Some(arch), Some(pkgrel), Some((epoch, pkgver))) => if pkgrel > 0
                                && i1 > 0 {
                                Some(
                                    PackageModel {
                                        pkgname: head.subrange(0, i1),
                                        pkgver,
                                        pkgrel,
                                        epoch,
                                        arch,
                                        binary: !signed,
                                        signed,
                                    },
                                )
                            } else {
                                None
                            },
                            _ => None,
                        },
                    }
                },
            }
        },
    }
}

/// The reference that a file name describes, or `None` where it is not
/// the name of a package file.
pub open spec fn parse_filename(s: Seq<char>) -> Option<PackageModel> {
    let signed = has_suffix(s, sig_suffix());
    let t = if signed {
        s.subrange(0, s.len() - sig_suffix().len())
    } else {
        s
    };
    if has_suffix(t, pkg_suffix()) {
        decode_fields(t.subrange(0, t.len() - pkg_suffix().len()), signed)
    } else {
        None
    }
}

/// A reference that has a file name of its own: the name and the version
/// are not empty, the version holds no dash (nor a colon without an epoch
/// to set it apart), the release is positive, and exactly one of the
/// payload and the signature is what the name stands for.
pub open spec fn constructible(m: PackageModel) -> bool {
    &&& m.pkgname.len() > 0
    &&& m.pkgver.len() > 0
    &&& !m.pkgver.contains('-')
    &&& (m.epoch == 0 ==> !m.pkgver.contains(':'))
    &&& m.pkgrel > 0
    &&& m.binary != m.signed
}

proof fn lemma_decode_arch(a: Arch)
    ensures
        decode_arch(arch_token(a)) == Some(a),
        !arch_token(a).contains('-'),
{
    let t = arch_token(a);
    if t.contains('-') {
        let i = choose|i: int| 0 <= i < t.len() && t[i] == '-';
        assert(t[i] != '-');
    }
    assert(arch_token(Arch::i686) != arch_token(Arch::x86_64));
    assert(arch_token(Arch::i686)[0] != arch_token(Arch::any)[0]);
    assert(arch_token(Arch::x86_64)[0] != arch_token(Arch::any)[0]);
}

proof fn lemma_decode_version(epoch: u64, pkgver: Seq<char>)
    requires
        pkgver.len() > 0,
        !pkgver.contains('-'),
        epoch == 0 ==> !pkgver.contains(':'),
    ensures
        decode_version(version_text(epoch, pkgver)) == Some((epoch, pkgver)),
        !version_text(epoch, pkgver).contains('-'),
{
    if epoch == 0 {
        pkgver.index_of_first_ensures(':');
    } else {
        let d = decimal(epoch as nat);
        lemma_decimal(epoch as nat);
        lemma_digits_exclude(d, ':');
        lemma_digits_exclude(d, '-');
        lemma_first_index_between(d, ':', pkgver);
        let v = d.push(':') + pkgver;
        assert(v.subrange(0, d.len() as int) =~= d);
        assert(v.subrange(d.len() as int + 1, v.len() as int) =~= pkgver);
        if v.contains('-') {
            let i = choose|i: int| 0 <= i < v.len() && v[i] == '-';
            if i < d.len() {
                assert(d.contains('-'));
            } else if i > d.len() {
                assert(pkgver[i - d.len() - 1] == '-');
            }
        }
    }
}

/// Formatting a reference and parsing the result gives the reference back.
pub proof fn lemma_round_trip(m: PackageModel)
    requires
        constructible(m),
    ensures
        parse_filename(filename_of(m)) == Some(m),
{
    let vt = version_text(m.epoch, m.pkgver);
    let d = decimal(m.pkgrel as nat);
    let tok = arch_token(m.arch);
    let head = m.pkgname.push('-') + vt;
    let rest = head.push('-') + d;
    let body = rest.push('-') + tok;
    let t = body + pkg_suffix();
    let tail = if m.signed { sig_suffix() } else { Seq::<char>::empty() };
    let f = filename_of(m);
    assert(f =~= t + tail);

    lemma_decode_version(m.epoch, m.pkgver);
    lemma_decimal(m.pkgrel as nat);
    lemma_digits_exclude(d, '-');
    lemma_decode_arch(m.arch);
    lemma_last_index_between(m.pkgname, '-', vt);
    lemma_last_index_between(head, '-', d);
    lemma_last_index_between(rest, '-', tok);

    if m.signed {
        assert(f.subrange(f.len() - 4, f.len() as int) =~= sig_suffix());
        assert(f.subrange(0, f.len() - 4) =~= t);
    } else {
        assert(f =~= t);
        assert(f[f.len() - 3] != sig_suffix()[1]);
        assert(f.subrange(f.len() - 4, f.len() as int)[1] != sig_suffix()[1]);
    }
    assert(t.subrange(t.len() - 11, t.len() as int) =~= pkg_suffix());
    assert(t.subrange(0, t.len() - 11) =~= body);
    assert(body.subrange(0, rest.len() as int) =~= rest);
    assert(body.subrange(rest.len() as int + 1, body.len() as int) =~= tok);
    assert(rest.subrange(0, head.len() as int) =~= head);
    assert(rest.subrange(head.len() as int + 1, rest.len() as int) =~= d);
    assert(head.subrange(0, m.pkgname.len() as int) =~= m.pkgname);
    assert(head.subrange(m.pkgname.len() as int + 1, head.len() as int) =~= vt);
}

/// What ends a file name after its architecture token: the archive suffix,
/// then the signature suffix for a signature.
pub open spec fn name_tail(signed: bool) -> Seq<char> {
    if signed {
        pkg_suffix() + sig_suffix()
    } else {
        pkg_suffix()
    }
}

/// A name that does not end with the archive suffix, on its own or
/// followed by the signature suffix, is rejected.
pub proof fn lemma_archive_suffix_required(s: Seq<char>)
    ensures
        !has_suffix(s, name_tail(false)) && !has_suffix(s, name_tail(true)) ==> parse_filename(
            s,
        ) is None,
{
    if has_suffix(s, sig_suffix()) {
        let t = s.subrange(0, s.len() - 4);
        if has_suffix(t, pkg_suffix()) {
            assert(s.subrange(s.len() - 15, s.len() as int) =~= t.subrange(
                t.len() - 11,
                t.len() as int,
            ) + sig_suffix());
        }
    }
}

/// Every accepted name has a positive release number.
pub proof fn lemma_release_positive(s: Seq<char>)
    ensures
        parse_filename(s) is Some ==> parse_filename(s)->0.pkgrel > 0,
{
}

/// A name is accepted only with one of the architecture tokens right
/// before its suffixes, and the reference carries that architecture.
pub proof fn lemma_arch_token_required(s: Seq<char>)
    ensures
        parse_filename(s) is Some ==> ({
            let m = parse_filename(s)->0;
            has_suffix(s, seq!['-'] + arch_token(m.arch) + name_tail(m.signed))
        }),
{
    if parse_filename(s) is Some {
        let m = parse_filename(s)->0;
        let signed = has_suffix(s, sig_suffix());
        let t = if signed { s.subrange(0, s.len() - 4) } else { s };
        let body = t.subrange(0, t.len() - 11);
        let i3 = body.index_of_last('-')->0;
        body.index_of_last_ensures('-');
        let field = body.subrange(i3 + 1, body.len() as int);
        assert(field == arch_token(m.arch));
        let w = seq!['-'] + field + name_tail(m.signed);
        let k = s.len() - w.len();
        assert(s.subrange(k, s.len() as int) =~= w) by {
            if signed {
                assert(s =~= body + pkg_suffix() + sig_suffix()) by {
                    assert(s =~= t + s.subrange(s.len() - 4, s.len() as int));
                    assert(t =~= body + t.subrange(t.len() - 11, t.len() as int));
                };
            } else {
                assert(s =~= body + pkg_suffix()) by {
                    assert(t =~= body + t.subrange(t.len() - 11, t.len() as int));
                };
            }
            assert(body =~= body.subrange(0, i3) + w.subrange(0, field.len() as int + 1));
        };
    }
}

/// An accepted name stands for exactly one file of the package: its
/// signature when it ends with the signature suffix, its payload otherwise.
pub proof fn lemma_one_flag(s: Seq<char>)
    ensures
        parse_filename(s) is Some ==> ({
            let m = parse_filename(s)->0;
            m.signed == has_suffix(s, sig_suffix()) && m.binary == !m.signed
        }),
{
}

impl Package {
    pub fn new(
        pkgname: &str,
        pkgver: &str,
        pkgrel: u64,
        epoch: u64,
        arch: Arch,
        binary: bool,
        signature: bool,
    ) -> (r: Package)
        ensures
            r@ == (PackageModel {
                pkgname: pkgname@,
                pkgver: pkgver@,
                pkgrel,
                epoch,
                arch,
                binary,
                signed: signature,
            }),
    {
        Package {
            pkgname: pkgname.to_owned(),
            pkgver: pkgver.to_owned(),
            pkgrel,
            epoch,
            arch,
            binary,
            signature,
        }
    }

    pub fn set_binary(&mut self, value: bool)
        ensures
            final(self)@ == (PackageModel { binary: value, ..old(self)@ }),
    {
        self.binary = value;
    }

    pub fn set_signed(&mut self, value: bool)
        ensures
            final(self)@ == (PackageModel { signed: value, ..old(self)@ }),
    {
        self.signature = value;
    }

    pub fn is_binary(&self) -> (r: bool)
        ensures
            r == self@.binary,
    {
        self.binary
    }

    pub fn is_signed(&self) -> (r: bool)
        ensures
            r == self@.signed,
    {
        self.signature
    }

    /// Whether `self` and `other` name the same package, whatever their
    /// presence flags.
    pub fn same_identity(&self, other: &Package) -> (r: bool)
        ensures
            r == same_identity(self@, other@),
    {
        self.pkgname == other.pkgname && self.pkgver == other.pkgver && self.pkgrel
            == other.pkgrel && self.epoch == other.epoch && self.arch == other.arch
    }
}

/// The characters of the signature suffix.
fn sig_chars() -> (r: Vec<char>)
    ensures
        r@ == sig_suffix(),
{
    let r = vec!['.', 's', 'i', 'g'];
    assert(r@ =~= sig_suffix());
    r
}

/// The characters of the package archive suffix.
fn pkg_chars() -> (r: Vec<char>)
    ensures
        r@ == pkg_suffix(),
{
    let r = vec!['.', 'p', 'k', 'g', '.', 't', 'a', 'r', '.', 'x', 'z'];
    assert(r@ =~= pkg_suffix());
    r
}

/// The architecture named by the characters `lo..hi` of `cs`.
fn arch_at(cs: &Vec<char>, lo: usize, hi: usize) -> (r: Option<Arch>)
    requires
        lo <= hi <= cs.len(),
    ensures
        r == decode_arch(cs@.subrange(lo as int, hi as int)),
{
    if equals_at(cs, lo, hi, &Arch::i686.token()) {
        Some(Arch::i686)
    } else if equals_at(cs, lo, hi, &Arch::x86_64.token()) {
        Some(Arch::x86_64)
    } else if equals_at(cs, lo, hi, &Arch::any.token()) {
        Some(Arch::any)
    } else {
        None
    }
}

/// The epoch of the version field held by the characters `lo..hi` of `cs`,
/// and the position where its version text starts.
fn version_at(cs: &Vec<char>, lo: usize, hi: usize) -> (r: Option<(u64, usize)>)
    requires
        lo <= hi <= cs.len(),
    ensures
        match r {
            Some((e, v)) => lo <= v <= hi && decode_version(cs@.subrange(lo as int, hi as int))
                == Some((e, cs@.subrange(v as int, hi as int))),
            None => decode_version(cs@.subrange(lo as int, hi as int)) is None,
        },
{
    let ghost s = cs@.subrange(lo as int, hi as int);
    match find(cs, lo, hi, ':') {
        None => {
            if hi > lo {
                Some((0, lo))
            } else {
                None
            }
        },
        Some(j) => {
            assert(s.subrange(0, j as int) =~= cs@.subrange(lo as int, lo + j));
            match read_u64(cs, lo, lo + j) {
                Some(e) => {
                    if lo + j + 1 < hi {
                        assert(s.subrange(j + 1, s.len() as int) =~= cs@.subrange(
                            lo + j + 1,
                            hi as int,
                        ));
                        Some((e, lo + j + 1))
                    } else {
                        None
                    }
                },
                None => None,
            }
        },
    }
}

impl Package {
    /// The canonical file name of this reference.
    pub fn to_string(&self) -> (r: String)
        ensures
            r@ == filename_of(self@),
    {
        let mut out = String::new();
        push_all(&mut out, &chars_of(self.pkgname.as_str()));
        push_char(&mut out, '-');
        if self.epoch != 0 {
            push_decimal(&mut out, self.epoch);
            push_char(&mut out, ':');
        }
        push_all(&mut out, &chars_of(self.pkgver.as_str()));
        push_char(&mut out, '-');
        push_decimal(&mut out, self.pkgrel);
        push_char(&mut out, '-');
        push_all(&mut out, &self.arch.token());
        push_all(&mut out, &pkg_chars());
        if self.signature {
            push_all(&mut out, &sig_chars());
        }
        assert(out@ =~= filename_of(self@));
        out
    }

    /// The reference that the file name `s` describes, or `None` where `s`
    /// is not the name of a package file.
    pub fn from_str(s: &str) -> (r: Option<Package>)
        ensures
            match r {
                Some(p) => parse_filename(s@) == Some(p@),
                None => parse_filename(s@) is None,
            },
    {
        let cs = chars_of(s);
        let n = cs.len();
        let signed = ends_with(&cs, n, &sig_chars());
        assert(cs@.subrange(0, n as int) =~= s@);
        let t_end: usize = if signed { n - 4 } else { n };
        let ghost t = cs@.subrange(0, t_end as int);
        if !ends_with(&cs, t_end, &pkg_chars()) {
            return None;
        }
        let body_end: usize = t_end - 11;
        let ghost body = cs@.subrange(0, body_end as int);
        assert(t.subrange(0, t.len() - pkg_suffix().len()) =~= body);
        let i3 = match rfind(&cs, body_end, '-') {
            Some(i) => i,
            None => return None,
        };
        let ghost rest = cs@.subrange(0, i3 as int);
        assert(body.subrange(0, i3 as int) =~= rest);
        let i2 = match rfind(&cs, i3, '-') {
            Some(i) => i,
            None => return None,
        };
        let ghost head = cs@.subrange(0, i2 as int);
        assert(rest.subrange(0, i2 as int) =~= head);
        let i1 = match rfind(&cs, i2, '-') {
            Some(i) => i,
            None => return None,
        };
        assert(body.subrange(i3 + 1, body.len() as int) =~= cs@.subrange(i3 + 1, body_end as int));
        assert(rest.subrange(i2 + 1, rest.len() as int) =~= cs@.subrange(i2 + 1, i3 as int));
        assert(head.subrange(i1 + 1, head.len() as int) =~= cs@.subrange(i1 + 1, i2 as int));
        assert(head.subrange(0, i1 as int) =~= cs@.subrange(0, i1 as int));
        let arch = match arch_at(&cs, i3 + 1, body_end) {
            Some(a) => a,
            None => return None,
        };
        let pkgrel = match read_u64(&cs, i2 + 1, i3) {
            Some(x) => x,
            None => return None,
        };
        let (epoch, v) = match version_at(&cs, i1 + 1, i2) {
            Some(ev) => ev,
            None => return None,
        };
        if pkgrel == 0 || i1 == 0 {
            return None;
        }
        let p = Package {
            pkgname: string_of(&cs, 0, i1),
            pkgver: string_of(&cs, v, i2),
            pkgrel,
            epoch,
            arch,
            binary: !signed,
            signature: signed,
        };
        Some(p)
    }
}

impl Clone for Package {
    fn clone(&self) -> (r: Package)
        ensures
            r@ == self@,
    {
        Package {
            pkgname: self.pkgname.clone(),
            pkgver: self.pkgver.clone(),
            pkgrel: self.pkgrel,
            epoch: self.epoch,
            arch: self.arch,
            binary: self.binary,
            signature: self.signature,
        }
    }
}

impl PartialEq for Package {
    fn eq(&self, other: &Package) -> (r: bool) {
        self.same_identity(other) && self.binary == other.binary && self.signature
            == other.signature
    }
}

impl vstd::std_specs::cmp::PartialEqSpecImpl for Package {
    open spec fn obeys_eq_spec() -> bool {
        true
    }

    open spec fn eq_spec(&self, other: &Package) -> bool {
        self@ == other@
    }
}

} // verus!
