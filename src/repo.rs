//! The pending set of observed artifacts and the event-driven state
//! machine that fills it and hands out the packages ready to publish.
use vstd::prelude::*;
use crate::package::{Package, PackageModel, parse_filename, same_identity};
use crate::text::{chars_of, equals_at};

verus! {

broadcast use vstd::seq_lib::group_seq_properties;

/// No two entries name the same package.
pub open spec fn unique_identities(s: Seq<PackageModel>) -> bool {
    forall|i: int, j: int|
        0 <= i < s.len() && 0 <= j < s.len() && i != j ==> !same_identity(#[trigger] s[i], #[trigger] s[j])
}

/// Whether some entry of `s` names the same package as `p`.
pub open spec fn tracks(s: Seq<PackageModel>, p: PackageModel) -> bool {
    exists|i: int| 0 <= i < s.len() && same_identity(#[trigger] s[i], p)
}

/// The position of the entry of `s` that names the same package as `p`.
pub open spec fn position(s: Seq<PackageModel>, p: PackageModel) -> int {
    choose|i: int| 0 <= i < s.len() && same_identity(#[trigger] s[i], p)
}

/// An entry with the presence flags of `p` added to its own.
pub open spec fn merge_flags(e: PackageModel, p: PackageModel) -> PackageModel {
    PackageModel { binary: e.binary || p.binary, signed: e.signed || p.signed, ..e }
}

/// The pending set after an observation of `p`: the entry of the same
/// package takes on its flags, or `p` is appended when there is none.
pub open spec fn upserted(s: Seq<PackageModel>, p: PackageModel) -> Seq<PackageModel> {
    if tracks(s, p) {
        let i = position(s, p);
        s.update(i, merge_flags(s[i], p))
    } else {
        s.push(p)
    }
}

/// Which file of a package is meant: its payload or its signature.
#[derive(Clone, Copy, Debug, PartialEq, Eq, Structural)]
pub enum Flag {
    Binary,
    Signed,
}

/// An entry with the flag `which` cleared.
pub open spec fn without_flag(e: PackageModel, which: Flag) -> PackageModel {
    match which {
        Flag::Binary => PackageModel { binary: false, ..e },
        Flag::Signed => PackageModel { signed: false, ..e },
    }
}

/// The pending set after the file `which` of the package `p` went away:
/// its entry loses that flag and leaves when no flag is left; nothing
/// changes when the package is not tracked.
pub open spec fn cleared(s: Seq<PackageModel>, p: PackageModel, which: Flag) -> Seq<PackageModel> {
    if tracks(s, p) {
        let i = position(s, p);
        let e = without_flag(s[i], which);
        if !e.binary && !e.signed {
            s.remove(i)
        } else {
            s.update(i, e)
        }
    } else {
        s
    }
}

/// Both the payload and the signature of the package are present.
pub open spec fn is_ready(e: PackageModel) -> bool {
    e.binary && e.signed
}

/// The entries of `s` ready to publish, in order.
pub open spec fn ready_of(s: Seq<PackageModel>) -> Seq<PackageModel> {
    s.filter(|e: PackageModel| is_ready(e))
}

/// The entries of `s` not yet ready, in order.
pub open spec fn pending_of(s: Seq<PackageModel>) -> Seq<PackageModel> {
    s.filter(|e: PackageModel| !is_ready(e))
}

/// The models of a sequence of packages.
pub open spec fn models(v: Seq<Package>) -> Seq<PackageModel> {
    v.map_values(|p: Package| p@)
}

/// The set of packages observed and not yet published.
#[derive(Debug)]
pub struct Repository {
    packages: Vec<Package>,
}

impl View for Repository {
    type V = Seq<PackageModel>;

    closed spec fn view(&self) -> Seq<PackageModel> {
        models(self.packages@)
    }
}

proof fn lemma_position(s: Seq<PackageModel>, p: PackageModel, k: int)
    requires
        unique_identities(s),
        0 <= k < s.len(),
        same_identity(s[k], p),
    ensures
        tracks(s, p),
        position(s, p) == k,
{
    assert(same_identity(s[k], p));
    let i = position(s, p);
    if i != k {
        assert(same_identity(s[i], s[k]));
    }
}

impl Repository {
    /// The well-formedness of the pending set.
    pub open spec fn wf(&self) -> bool {
        unique_identities(self@)
    }

    /// An empty pending set.
    pub fn new() -> (r: Repository)
        ensures
            r.wf(),
            r@ == Seq::<PackageModel>::empty(),
    {
        let r = Repository { packages: Vec::new() };
        assert(r@ =~= Seq::<PackageModel>::empty());
        r
    }

    /// The number of entries.
    pub fn len(&self) -> (r: usize)
        ensures
            r == self@.len(),
    {
        self.packages.len()
    }

    /// Copies of the entries, in order.
    pub fn entries(&self) -> (r: Vec<Package>)
        ensures
            models(r@) == self@,
    {
        let mut r: Vec<Package> = Vec::new();
        let mut k: usize = 0;
        while k < self.packages.len()
            invariant
                k <= self.packages@.len(),
                r@.len() == k,
                forall|i: int| 0 <= i < k ==> (#[trigger] r@[i])@ == self.packages@[i]@,
            decreases self.packages@.len() - k,
        {
            r.push(self.packages[k].clone());
            k = k + 1;
        }
        assert(models(r@) =~= models(self.packages@));
        r
    }

    /// The position of the entry that names the same package as `p`.
    fn find(&self, p: &Package) -> (r: Option<usize>)
        requires
            self.wf(),
        ensures
            match r {
                Some(k) => k < self@.len() && tracks(self@, p@) && position(self@, p@) == k,
                None => !tracks(self@, p@),
            },
    {
        let mut k: usize = 0;
        while k < self.packages.len()
            invariant
                k <= self.packages@.len(),
                self.wf(),
                forall|j: int| 0 <= j < k ==> !same_identity(#[trigger] self@[j], p@),
            decreases self.packages@.len() - k,
        {
            if self.packages[k].same_identity(p) {
                proof {
                    lemma_position(self@, p@, k as int);
                }
                return Some(k);
            }
            k = k + 1;
        }
        None
    }

    /// Records an observation of `p`: the entry of the same package takes
    /// on its presence flags, or `p` becomes a new entry.
    pub fn upsert(&mut self, p: Package)
        requires
            old(self).wf(),
        ensures
            final(self).wf(),
            final(self)@ == upserted(old(self)@, p@),
    {
        match self.find(&p) {
            Some(k) => {
                let mut e = self.packages[k].clone();
                let b = e.is_binary() || p.is_binary();
                let s = e.is_signed() || p.is_signed();
                e.set_binary(b);
                e.set_signed(s);
                self.packages.set(k, e);
                assert(self@ =~= upserted(old(self)@, p@));
            },
            None => {
                self.packages.push(p);
                assert(self@ =~= upserted(old(self)@, p@));
            },
        }
        assert forall|i: int, j: int|
            0 <= i < self@.len() && 0 <= j < self@.len() && i != j implies !same_identity(
            #[trigger] self@[i],
            #[trigger] self@[j],
        ) by {
            let o = old(self)@;
            if i < o.len() && j < o.len() {
                assert(same_identity(self@[i], o[i]));
                assert(same_identity(self@[j], o[j]));
            } else if i < o.len() {
                assert(same_identity(self@[i], o[i]));
            } else {
                assert(same_identity(self@[j], o[j]));
            }
        }
    }
}

impl Repository {
    /// Records that the file `which` of the package `p` went away: its
    /// entry loses that flag and leaves once no flag is left. Nothing
    /// happens when the package is not tracked.
    pub fn clear_flag(&mut self, p: &Package, which: Flag)
        requires
            old(self).wf(),
        ensures
            final(self).wf(),
            final(self)@ == cleared(old(self)@, p@, which),
    {
        match self.find(p) {
            Some(k) => {
                let mut e = self.packages[k].clone();
                match which {
                    Flag::Binary => e.set_binary(false),
                    Flag::Signed => e.set_signed(false),
                }
                if !e.is_binary() && !e.is_signed() {
                    self.packages.remove(k);
                    assert(self@ =~= cleared(old(self)@, p@, which));
                } else {
                    self.packages.set(k, e);
                    assert(self@ =~= cleared(old(self)@, p@, which));
                }
            },
            None => {},
        }
        assert forall|i: int, j: int|
            0 <= i < self@.len() && 0 <= j < self@.len() && i != j implies !same_identity(
            #[trigger] self@[i],
            #[trigger] self@[j],
        ) by {
            let o = old(self)@;
            if self@.len() < o.len() {
                let k = position(o, p@);
                let oi = if i < k { i } else { i + 1 };
                let oj = if j < k { j } else { j + 1 };
                assert(self@[i] == o[oi]);
                assert(self@[j] == o[oj]);
            } else {
                assert(same_identity(self@[i], o[i]));
                assert(same_identity(self@[j], o[j]));
            }
        }
    }

    /// Splits the entries into those ready to publish and the others,
    /// keeping their order and leaving the set as it is.
    pub fn partition(&self) -> (r: (Vec<Package>, Vec<Package>))
        ensures
            models(r.0@) == ready_of(self@),
            models(r.1@) == pending_of(self@),
    {
        let ghost s = self@;
        let mut ready: Vec<Package> = Vec::new();
        let mut pending: Vec<Package> = Vec::new();
        let mut k: usize = 0;
        while k < self.packages.len()
            invariant
                k <= self.packages@.len(),
                s == self@,
                models(ready@) == ready_of(s.subrange(0, k as int)),
                models(pending@) == pending_of(s.subrange(0, k as int)),
            decreases self.packages@.len() - k,
        {
            let e = self.packages[k].clone();
            proof {
                let pre = s.subrange(0, k as int);
                assert(s.subrange(0, k + 1) =~= pre.push(e@));
                pre.lemma_filter_push(e@, |x: PackageModel| is_ready(x));
                pre.lemma_filter_push(e@, |x: PackageModel| !is_ready(x));
            }
            if e.is_binary() && e.is_signed() {
                ready.push(e);
                assert(models(ready@) =~= ready_of(s.subrange(0, k + 1)));
            } else {
                pending.push(e);
                assert(models(pending@) =~= pending_of(s.subrange(0, k + 1)));
            }
            k = k + 1;
        }
        assert(s.subrange(0, k as int) =~= s);
        (ready, pending)
    }

    /// Takes out the entries ready to publish and returns them in order;
    /// the others stay pending.
    pub fn commit(&mut self) -> (r: Vec<Package>)
        requires
            old(self).wf(),
        ensures
            final(self).wf(),
            models(r@) == ready_of(old(self)@),
            final(self)@ == pending_of(old(self)@),
    {
        let (ready, pending) = self.partition();
        self.packages = pending;
        proof {
            lemma_pending_unique(old(self)@);
        }
        ready
    }
}

/// Keeping only some entries keeps their identities apart.
proof fn lemma_filter_unique(s: Seq<PackageModel>, pred: spec_fn(PackageModel) -> bool)
    requires
        unique_identities(s),
    ensures
        unique_identities(s.filter(pred)),
    decreases s.len(),
{
    reveal(Seq::filter);
    if s.len() > 0 {
        let pre = s.drop_last();
        assert(unique_identities(pre)) by {
            assert forall|i: int, j: int|
                0 <= i < pre.len() && 0 <= j < pre.len() && i != j implies !same_identity(
                #[trigger] pre[i],
                #[trigger] pre[j],
            ) by {
                assert(pre[i] == s[i] && pre[j] == s[j]);
            }
        }
        lemma_filter_unique(pre, pred);
        if pred(s.last()) {
            let f = pre.filter(pred);
            let g = f.push(s.last());
            assert forall|i: int, j: int|
                0 <= i < g.len() && 0 <= j < g.len() && i != j implies !same_identity(
                #[trigger] g[i],
                #[trigger] g[j],
            ) by {
                if i == f.len() || j == f.len() {
                    let m = if i == f.len() { j } else { i };
                    assert(f.contains(f[m]));
                    pre.lemma_filter_contains_rev(pred, f[m]);
                    let q = choose|q: int| 0 <= q < pre.len() && pre[q] == f[m];
                    assert(s[q] == f[m]);
                    assert(!same_identity(s[q], s[s.len() - 1]));
                }
            }
        }
    }
}

proof fn lemma_pending_unique(s: Seq<PackageModel>)
    requires
        unique_identities(s),
    ensures
        unique_identities(pending_of(s)),
{
    lemma_filter_unique(s, |e: PackageModel| !is_ready(e));
}

/// Observing the same package file twice leaves exactly one entry for
/// that package, the same as after the first observation.
pub proof fn lemma_upsert_idempotent(s: Seq<PackageModel>, p: PackageModel)
    requires
        unique_identities(s),
    ensures
        upserted(upserted(s, p), p) == upserted(s, p),
        exists|i: int|
            0 <= i < upserted(s, p).len() && same_identity(upserted(s, p)[i], p) && forall|j: int|
                0 <= j < upserted(s, p).len() && #[trigger] same_identity(upserted(s, p)[j], p)
                    ==> j == i,
{
    let u = upserted(s, p);
    let k = if tracks(s, p) { position(s, p) } else { s.len() as int };
    assert(same_identity(u[k], p));
    assert forall|j: int| 0 <= j < u.len() && #[trigger] same_identity(u[j], p) implies j == k by {
        if j != k {
            assert(u[j] == s[j]);
            assert(same_identity(s[j], s[k]) || !tracks(s, p));
        }
    }
    lemma_upsert_unique(s, p);
    lemma_position(u, p, k);
    assert(upserted(u, p) =~= u);
}

proof fn lemma_upsert_unique(s: Seq<PackageModel>, p: PackageModel)
    requires
        unique_identities(s),
    ensures
        unique_identities(upserted(s, p)),
{
    let u = upserted(s, p);
    assert forall|i: int, j: int|
        0 <= i < u.len() && 0 <= j < u.len() && i != j implies !same_identity(
        #[trigger] u[i],
        #[trigger] u[j],
    ) by {
        if i < s.len() && j < s.len() {
            assert(same_identity(u[i], s[i]));
            assert(same_identity(u[j], s[j]));
        } else if i < s.len() {
            assert(same_identity(u[i], s[i]));
        } else {
            assert(same_identity(u[j], s[j]));
        }
    }
}

/// The disappearance of a file of a package that is not tracked changes
/// nothing.
pub proof fn lemma_clear_untracked(s: Seq<PackageModel>, p: PackageModel, which: Flag)
    requires
        !tracks(s, p),
    ensures
        cleared(s, p, which) == s,
{
}

/// A commit parts the set in two: the entries with both files present go
/// out, every other entry stays, and nothing is lost or made up.
pub proof fn lemma_commit_partition(s: Seq<PackageModel>)
    ensures
        forall|e: PackageModel| #[trigger] ready_of(s).contains(e) <==> s.contains(e) && is_ready(e),
        forall|e: PackageModel| #[trigger] pending_of(s).contains(e) <==> s.contains(e) && !is_ready(
            e,
        ),
        ready_of(s).len() + pending_of(s).len() == s.len(),
{
    let r = |x: PackageModel| is_ready(x);
    let q = |x: PackageModel| !is_ready(x);
    assert forall|e: PackageModel| #[trigger] ready_of(s).contains(e) <==> s.contains(e) && is_ready(e) by {
        if ready_of(s).contains(e) {
            s.lemma_filter_contains_rev(r, e);
            let i = choose|i: int| 0 <= i < ready_of(s).len() && ready_of(s)[i] == e;
            s.lemma_filter_pred(r, i);
        }
        if s.contains(e) && is_ready(e) {
            let i = choose|i: int| 0 <= i < s.len() && s[i] == e;
            s.lemma_filter_contains(r, i);
        }
    }
    assert forall|e: PackageModel| #[trigger] pending_of(s).contains(e) <==> s.contains(e) && !is_ready(e) by {
        if pending_of(s).contains(e) {
            s.lemma_filter_contains_rev(q, e);
            let i = choose|i: int| 0 <= i < pending_of(s).len() && pending_of(s)[i] == e;
            s.lemma_filter_pred(q, i);
        }
        if s.contains(e) && !is_ready(e) {
            let i = choose|i: int| 0 <= i < s.len() && s[i] == e;
            s.lemma_filter_contains(q, i);
        }
    }
    lemma_partition_len(s);
}

proof fn lemma_partition_len(s: Seq<PackageModel>)
    ensures
        ready_of(s).len() + pending_of(s).len() == s.len(),
    decreases s.len(),
{
    if s.len() > 0 {
        let pre = s.drop_last();
        lemma_partition_len(pre);
        assert(s =~= pre.push(s.last()));
        pre.lemma_filter_push(s.last(), |x: PackageModel| is_ready(x));
        pre.lemma_filter_push(s.last(), |x: PackageModel| !is_ready(x));
    } else {
        reveal(Seq::filter);
    }
}

/// The kind of a file system event in the watched directory.
#[derive(Clone, Copy, Debug, PartialEq, Eq, Structural)]
pub enum EventKind {
    CloseWrite,
    Delete,
    MovedFrom,
    MovedTo,
    Other,
}

/// What an event asks of the pending set.
#[derive(Debug)]
pub enum Action {
    /// Publish the packages that are ready.
    Commit,
    /// A file appeared.
    Add(String),
    /// A file went away.
    Remove(String),
    /// An event of a kind that is not handled.
    Unhandled,
}

/// The name of the file whose appearance triggers a commit.
pub open spec fn done_name() -> Seq<char> {
    seq!['D', 'O', 'N', 'E']
}

/// A file appeared: it was written and closed, or moved in.
pub open spec fn appears(kind: EventKind) -> bool {
    kind == EventKind::CloseWrite || kind == EventKind::MovedTo
}

/// A file went away: it was deleted, or moved out.
pub open spec fn disappears(kind: EventKind) -> bool {
    kind == EventKind::Delete || kind == EventKind::MovedFrom
}

/// The event triggers a commit.
pub open spec fn is_commit(name: Seq<char>, kind: EventKind) -> bool {
    appears(kind) && name == done_name()
}

/// Sorts an event on the file `filename` into what it asks for.
pub fn classify(filename: &str, kind: EventKind) -> (r: Action)
    ensures
        is_commit(filename@, kind) ==> r is Commit,
        appears(kind) && filename@ != done_name() ==> (r matches Action::Add(f) && f@
            == filename@),
        disappears(kind) ==> (r matches Action::Remove(f) && f@ == filename@),
        kind == EventKind::Other ==> r is Unhandled,
{
    match kind {
        EventKind::CloseWrite | EventKind::MovedTo => {
            let cs = chars_of(filename);
            let done = vec!['D', 'O', 'N', 'E'];
            assert(done@ =~= done_name());
            assert(cs@.subrange(0, cs@.len() as int) =~= cs@);
            if equals_at(&cs, 0, cs.len(), &done) {
                Action::Commit
            } else {
                Action::Add(filename.to_owned())
            }
        },
        EventKind::Delete | EventKind::MovedFrom => Action::Remove(filename.to_owned()),
        EventKind::Other => Action::Unhandled,
    }
}

/// The flag that a file of the package stands for.
pub open spec fn flag_of(m: PackageModel) -> Flag {
    if m.signed {
        Flag::Signed
    } else {
        Flag::Binary
    }
}

/// The pending set after an event on the file `name`.
pub open spec fn next_state(s: Seq<PackageModel>, name: Seq<char>, kind: EventKind) -> Seq<
    PackageModel,
> {
    if is_commit(name, kind) {
        pending_of(s)
    } else if appears(kind) {
        match parse_filename(name) {
            Some(m) => upserted(s, m),
            None => s,
        }
    } else if disappears(kind) {
        match parse_filename(name) {
            Some(m) => cleared(s, m, flag_of(m)),
            None => s,
        }
    } else {
        s
    }
}

/// What handling one event did.
#[derive(Debug)]
pub enum Outcome {
    /// A commit: the packages ready to publish, taken out of the set.
    Committed(Vec<Package>),
    /// The observation of a package file was recorded.
    Added(Package),
    /// The disappearance of a package file was recorded.
    Removed(Package),
    /// The file is not a package file; nothing changed.
    Ignored,
    /// The event kind is not handled; nothing changed.
    Unhandled,
}

impl Repository {
    /// Handles one event on the file `filename`: a commit on the sentinel,
    /// an observation or a disappearance of a package file otherwise.
    pub fn handle(&mut self, filename: &str, kind: EventKind) -> (r: Outcome)
        requires
            old(self).wf(),
        ensures
            final(self).wf(),
            final(self)@ == next_state(old(self)@, filename@, kind),
            match r {
                Outcome::Committed(v) => is_commit(filename@, kind) && models(v@) == ready_of(
                    old(self)@,
                ),
                Outcome::Added(p) => appears(kind) && !is_commit(filename@, kind)
                    && parse_filename(filename@) == Some(p@),
                Outcome::Removed(p) => disappears(kind) && parse_filename(filename@) == Some(p@),
                Outcome::Ignored => (disappears(kind) || (appears(kind) && !is_commit(
                    filename@,
                    kind,
                ))) && parse_filename(filename@) is None,
                Outcome::Unhandled => kind == EventKind::Other,
            },
    {
        match classify(filename, kind) {
            Action::Commit => Outcome::Committed(self.commit()),
            Action::Add(f) => match Package::from_str(f.as_str()) {
                Some(p) => {
                    let q = p.clone();
                    self.upsert(p);
                    Outcome::Added(q)
                },
                None => Outcome::Ignored,
            },
            Action::Remove(f) => match Package::from_str(f.as_str()) {
                Some(p) => {
                    let which = if p.is_signed() {
                        Flag::Signed
                    } else {
                        Flag::Binary
                    };
                    self.clear_flag(&p, which);
                    Outcome::Removed(p)
                },
                None => Outcome::Ignored,
            },
            Action::Unhandled => Outcome::Unhandled,
        }
    }
}

} // verus!
