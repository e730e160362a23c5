use vstd::prelude::*;
use crate::value::{Json, Value, views};
use crate::patch::{OpModel, Patch, PatchError, apply, apply_ops, apply_op_spec, get_path, locate, path_view};
use crate::wire::{InvalidPatchError, PatchFault, patch_from_json, patch_to_json, ops_plain, patch_is_plain, lemma_patch_round_trip};
use crate::patch_log::MultiLog;
use crate::patch_helpers::{prefix_ops, prefix_patch_paths, lemma_empty_prefix};

verus! {

/// Why a store request failed.
#[derive(Debug)]
pub enum DbError {
    /// The patch could not be applied; nothing changed.
    PatchError(PatchError),
    /// A log entry does not describe a patch.
    InvalidPatchError(InvalidPatchError),
    /// No document has this id.
    DocumentDoesNotExist,
    /// The document holds nothing at the requested path.
    PathDoesNotExist,
    /// The document changed after the commit was prepared.
    StaleCommit,
    /// The version counter is at its largest value.
    TooManyVersions,
    /// A path segment of the patch holds a `/`, which its log record could
    /// not carry.
    UnloggablePath,
}

/// The value that replaying committed patches in order from `null` gives.
pub open spec fn replay(h: Seq<Seq<OpModel>>) -> Option<Json>
    decreases h.len(),
{
    if h.len() == 0 {
        Some(Json::Null)
    } else {
        match replay(h.drop_last()) {
            Some(v) => match apply_ops(v, h.last()) {
                Ok(nv) => Some(nv),
                Err(_) => None,
            },
            None => None,
        }
    }
}

/// The patches that log entries describe, when each describes one.
pub open spec fn log_patches(lines: Seq<Json>) -> Option<Seq<Seq<OpModel>>>
    decreases lines.len(),
{
    if lines.len() == 0 {
        Some(Seq::empty())
    } else {
        match log_patches(lines.drop_last()) {
            Some(h) => match patch_from_json(lines.last()) {
                Ok(ops) => Some(h.push(ops)),
                Err(_) => None,
            },
            None => None,
        }
    }
}

/// Why a log does not load.
pub enum LoadFault {
    /// An entry describes no patch.
    BadEntry(PatchFault),
    /// An entry's patch does not apply to what the earlier entries left.
    Replay(PatchError),
}

/// Loading log entries: each describes a patch, applied in order from
/// `null`; the patches and the value they leave, or the first failure.
pub open spec fn replay_log(lines: Seq<Json>) -> Result<(Seq<Seq<OpModel>>, Json), LoadFault>
    decreases lines.len(),
{
    if lines.len() == 0 {
        Ok((Seq::empty(), Json::Null))
    } else {
        match replay_log(lines.drop_last()) {
            Err(e) => Err(e),
            Ok((h, v)) => match patch_from_json(lines.last()) {
                Err(e) => Err(LoadFault::BadEntry(e)),
                Ok(ops) => match apply_ops(v, ops) {
                    Ok(nv) => Ok((h.push(ops), nv)),
                    Err(e) => Err(LoadFault::Replay(e)),
                },
            },
        }
    }
}

/// Loading a log succeeds exactly when each entry describes a patch and
/// replaying those patches succeeds, with that history and value.
pub proof fn lemma_replay_log(lines: Seq<Json>)
    ensures
        replay_log(lines) is Ok ==> log_patches(lines) == Some(replay_log(lines)->Ok_0.0)
            && replay(replay_log(lines)->Ok_0.0) == Some(replay_log(lines)->Ok_0.1),
        log_patches(lines) is Some && replay(log_patches(lines)->0) is Some ==> replay_log(lines)
            == Ok::<(Seq<Seq<OpModel>>, Json), LoadFault>((log_patches(lines)->0, replay(log_patches(lines)->0)->0)),
    decreases lines.len(),
{
    if lines.len() > 0 {
        lemma_replay_log(lines.drop_last());
        if let Some(h) = log_patches(lines.drop_last()) {
            if let Ok(ops) = patch_from_json(lines.last()) {
                assert(h.push(ops).drop_last() =~= h);
            }
        }
    }
}

proof fn lemma_replay_log_fails_early(a: Seq<Json>, k: int)
    requires
        0 <= k <= a.len(),
        replay_log(a.subrange(0, k)) is Err,
    ensures
        replay_log(a) == replay_log(a.subrange(0, k)),
    decreases a.len() - k,
{
    if k == a.len() {
        assert(a.subrange(0, k) =~= a);
    } else {
        assert(a.subrange(0, k + 1).drop_last() =~= a.subrange(0, k));
        lemma_replay_log_fails_early(a, k + 1);
    }
}

proof fn lemma_log_patches_prefix(a: Seq<Json>, k: int)
    requires
        0 <= k <= a.len(),
        log_patches(a) is Some,
    ensures
        log_patches(a.subrange(0, k)) == Some(log_patches(a)->0.subrange(0, k)),
        log_patches(a)->0.len() == a.len(),
    decreases a.len(),
{
    if a.len() > 0 {
        lemma_log_patches_prefix(a.drop_last(), if k == a.len() { k - 1 } else { k });
        if k == a.len() {
            assert(a.subrange(0, k) =~= a);
            assert(log_patches(a)->0.subrange(0, k) =~= log_patches(a)->0);
        } else {
            assert(a.drop_last().subrange(0, k) =~= a.subrange(0, k));
            assert(log_patches(a.drop_last())->0.subrange(0, k) =~= log_patches(a)->0.subrange(0, k));
        }
    } else {
        assert(a.subrange(0, k) =~= a);
    }
}

proof fn lemma_replay_prefix(h: Seq<Seq<OpModel>>, k: int)
    requires
        0 <= k <= h.len(),
        replay(h) is Some,
    ensures
        replay(h.subrange(0, k)) is Some,
    decreases h.len(),
{
    if k == h.len() {
        assert(h.subrange(0, k) =~= h);
    } else {
        lemma_replay_prefix(h.drop_last(), k);
        assert(h.drop_last().subrange(0, k) =~= h.subrange(0, k));
    }
}

/// One document: its current value, the number of committed patches, and
/// those patches in commit order.
pub struct Doc {
    value: Value,
    version: usize,
    history: Ghost<Seq<Seq<OpModel>>>,
}

impl Doc {
    #[verifier::type_invariant]
    spec fn replays(self) -> bool {
        &&& replay(self.history@) == Some(self.value@)
        &&& self.version == self.history@.len()
    }

    pub closed spec fn value_model(&self) -> Json {
        self.value@
    }

    pub closed spec fn version_model(&self) -> nat {
        self.version as nat
    }

    /// The committed patches, oldest first.
    pub closed spec fn history(&self) -> Seq<Seq<OpModel>> {
        self.history@
    }

    /// A new document: `null`, at version 0.
    pub fn new() -> (r: Doc)
        ensures
            r.value_model() == Json::Null,
            r.version_model() == 0,
            r.history() == Seq::<Seq<OpModel>>::empty(),
    {
        Doc { value: Value::Null, version: 0, history: Ghost(Seq::empty()) }
    }

    pub fn value(&self) -> (r: &Value)
        ensures
            r@ == self.value_model(),
    {
        &self.value
    }

    pub fn version(&self) -> (r: usize)
        ensures
            r == self.version_model(),
    {
        self.version
    }

    /// Rebuilds a document from its log entries, each of which describes one
    /// patch, replayed in order from `null`. An entry that describes no patch,
    /// or a patch that does not apply, fails the whole load.
    pub fn from_log(entries: &Vec<Value>) -> (r: Result<Doc, DbError>)
        ensures
            match replay_log(views(entries@)) {
                Ok((h, v)) => r is Ok && r->Ok_0.history() == h && r->Ok_0.value_model() == v
                    && r->Ok_0.version_model() == h.len(),
                Err(LoadFault::BadEntry(e)) => r is Err && r->Err_0 is InvalidPatchError
                    && r->Err_0->InvalidPatchError_0@ == e,
                Err(LoadFault::Replay(e)) => r is Err && r->Err_0 == DbError::PatchError(e),
            },
    {
        let ghost lines = views(entries@);
        let mut value = Value::Null;
        let mut version: usize = 0;
        let ghost mut hist: Seq<Seq<OpModel>> = Seq::empty();
        assert(lines.subrange(0, 0) =~= Seq::<Json>::empty());
        while version < entries.len()
            invariant
                lines == views(entries@),
                version <= entries@.len(),
                replay_log(lines.subrange(0, version as int)) == Ok::<(Seq<Seq<OpModel>>, Json), LoadFault>((hist, value@)),
                hist.len() == version,
            decreases entries@.len() - version,
        {
            let i = version;
            assert(lines.subrange(0, i as int + 1).drop_last() =~= lines.subrange(0, i as int));
            assert(lines[i as int] == entries@[i as int]@);
            let patch = match Patch::from_value(entries[i].deep_copy()) {
                Ok(p) => p,
                Err(e) => {
                    proof { lemma_replay_log_fails_early(lines, i as int + 1); }
                    return Err(DbError::InvalidPatchError(e));
                },
            };
            let next = match apply(&patch, &value) {
                Ok(v) => v,
                Err(e) => {
                    proof { lemma_replay_log_fails_early(lines, i as int + 1); }
                    return Err(DbError::PatchError(e));
                },
            };
            proof {
                hist = hist.push(patch@);
            }
            value = next;
            version = version + 1;
        }
        assert(lines.subrange(0, version as int) =~= lines);
        proof { lemma_replay_log(lines); }
        Ok(Doc { value, version, history: Ghost(hist) })
    }
}

/// What loading log entries `log` (`None`: no log exists) gives, where a
/// document without a log may be created only if `create` allows it.
pub open spec fn opened(log: Option<Vec<Value>>, create: bool, r: Result<Doc, DbError>) -> bool {
    if log is None && !create {
        r is Err && r->Err_0 is DocumentDoesNotExist
    } else {
        match replay_log(log_lines(log)) {
            Ok((h, v)) => r is Ok && r->Ok_0.history() == h && r->Ok_0.value_model() == v
                && r->Ok_0.version_model() == h.len(),
            Err(LoadFault::BadEntry(e)) => r is Err && r->Err_0 is InvalidPatchError
                && r->Err_0->InvalidPatchError_0@ == e,
            Err(LoadFault::Replay(e)) => r is Err && r->Err_0 == DbError::PatchError(e),
        }
    }
}

/// `new` is store `old` after loading document `id`, not loaded in `old`,
/// from log entries `log` as `opened` says, with result `r`.
pub open spec fn loaded(
    old: Database,
    new: Database,
    id: Seq<char>,
    log: Option<Vec<Value>>,
    create: bool,
    r: Result<(), DbError>,
) -> bool {
    &&& new.log_dir() == old.log_dir()
    &&& if log is None && !create {
        r is Err && r->Err_0 is DocumentDoesNotExist && new == old
    } else {
        match replay_log(log_lines(log)) {
            Ok((h, v)) => {
                &&& r is Ok
                &&& new.lookup(id) is Some
                &&& new.lookup(id)->0.history() == h
                &&& new.lookup(id)->0.value_model() == v
                &&& new.lookup(id)->0.version_model() == h.len()
                &&& forall|x: Seq<char>| x != id ==> #[trigger] new.lookup(x) == old.lookup(x)
            },
            Err(LoadFault::BadEntry(e)) => r is Err && r->Err_0 is InvalidPatchError
                && r->Err_0->InvalidPatchError_0@ == e && new == old,
            Err(LoadFault::Replay(e)) => r is Err && r->Err_0 == DbError::PatchError(e) && new == old,
        }
    }
}

/// `new` is store `old` after preparing patch `ops` of document `id` under
/// `prefix`, the document being loaded first from `log` where it was not,
/// and created only for a scoped request; `r` is the result.
pub open spec fn patched(
    old: Database,
    new: Database,
    id: Seq<char>,
    log: Option<Vec<Value>>,
    ops: Seq<OpModel>,
    prefix: Seq<Seq<char>>,
    r: Result<Pending, DbError>,
) -> bool {
    if old.lookup(id) is Some {
        new == old && old.staged(id, ops, prefix, r)
    } else if log is None && prefix.len() == 0 {
        r is Err && r->Err_0 is DocumentDoesNotExist && new == old
    } else {
        &&& new.log_dir() == old.log_dir()
        &&& match replay_log(log_lines(log)) {
            Ok((h, v)) => {
                &&& new.lookup(id) is Some
                &&& new.lookup(id)->0.history() == h
                &&& new.lookup(id)->0.value_model() == v
                &&& new.lookup(id)->0.version_model() == h.len()
                &&& forall|x: Seq<char>| x != id ==> #[trigger] new.lookup(x) == old.lookup(x)
                &&& new.staged(id, ops, prefix, r)
            },
            Err(LoadFault::BadEntry(e)) => r is Err && r->Err_0 is InvalidPatchError
                && r->Err_0->InvalidPatchError_0@ == e && new == old,
            Err(LoadFault::Replay(e)) => r is Err && r->Err_0 == DbError::PatchError(e) && new == old,
        }
    }
}

impl Doc {
    /// The document that a request opens from its log entries (`None`: it
    /// has no log yet). Without a log it is created empty, at `null`, only
    /// where `create` allows it.
    pub fn open_log(log: Option<Vec<Value>>, create: bool) -> (r: Result<Doc, DbError>)
        ensures
            opened(log, create, r),
    {
        let entries = match log {
            Some(l) => l,
            None => {
                if !create {
                    return Err(DbError::DocumentDoesNotExist);
                }
                Vec::new()
            },
        };
        assert(views(entries@) =~= log_lines(log));
        Doc::from_log(&entries)
    }
}

/// Replaying, from `null`, patches that were applied one after another with
/// success gives the value that the last one left, whatever they were: a
/// store reopened from its logs holds what it held before.
pub proof fn lemma_replay_determinism(h: Seq<Seq<OpModel>>, states: Seq<Json>)
    requires
        states.len() == h.len() + 1,
        states[0] == Json::Null,
        forall|i: int| 0 <= i < h.len() ==> apply_ops(states[i], #[trigger] h[i]) == Ok::<Json, PatchError>(states[i + 1]),
    ensures
        replay(h) == Some(states.last()),
    decreases h.len(),
{
    if h.len() > 0 {
        let q = h.drop_last();
        let s = states.drop_last();
        assert forall|i: int| 0 <= i < q.len() implies apply_ops(s[i], #[trigger] q[i]) == Ok::<Json, PatchError>(s[i + 1]) by {
            assert(q[i] == h[i]);
        }
        lemma_replay_determinism(q, s);
        assert(apply_ops(states[h.len() - 1], h[h.len() - 1]) == Ok::<Json, PatchError>(states[h.len() as int]));
    }
}

// ---------------------------------------------------------------------------
// The store

/// Position of the first entry whose id is `id`, or -1.
pub open spec fn id_index(ids: Seq<Seq<char>>, id: Seq<char>) -> int
    decreases ids.len(),
{
    if ids.len() == 0 {
        -1
    } else if id_index(ids.drop_last(), id) >= 0 {
        id_index(ids.drop_last(), id)
    } else if ids.last() == id {
        ids.len() - 1
    } else {
        -1
    }
}

proof fn lemma_id_index(ids: Seq<Seq<char>>, id: Seq<char>)
    ensures
        -1 <= id_index(ids, id) < ids.len(),
        id_index(ids, id) >= 0 ==> ids[id_index(ids, id)] == id,
        id_index(ids, id) >= 0 ==> forall|j: int| 0 <= j < id_index(ids, id) ==> #[trigger] ids[j] != id,
        id_index(ids, id) < 0 ==> forall|j: int| 0 <= j < ids.len() ==> #[trigger] ids[j] != id,
    decreases ids.len(),
{
    if ids.len() > 0 {
        lemma_id_index(ids.drop_last(), id);
        assert forall|j: int| 0 <= j < ids.len() - 1 implies #[trigger] ids[j] == ids.drop_last()[j] by {}
    }
}

proof fn lemma_id_index_first(ids: Seq<Seq<char>>, id: Seq<char>, i: int)
    requires
        -1 <= i < ids.len(),
        i >= 0 ==> ids[i] == id,
        forall|j: int| 0 <= j < ids.len() && (i < 0 || j < i) ==> ids[j] != id,
    ensures
        id_index(ids, id) == i,
{
    lemma_id_index(ids, id);
    let c = id_index(ids, id);
    if c >= 0 && i >= 0 && c < i {
        assert(ids[c] != id);
    }
    if c >= 0 && i < 0 {
        assert(ids[c] != id);
    }
    if i >= 0 && c < 0 {
        assert(ids[i] != id);
    }
    if i >= 0 && c > i {
        assert(ids[i] != id);
    }
}

proof fn lemma_id_index_push(ids: Seq<Seq<char>>, id: Seq<char>, x: Seq<char>)
    ensures
        id_index(ids, id) >= 0 ==> id_index(ids.push(x), id) == id_index(ids, id),
        id_index(ids, id) < 0 && x == id ==> id_index(ids.push(x), id) == ids.len(),
        id_index(ids, id) < 0 && x != id ==> id_index(ids.push(x), id) == -1,
{
    assert(ids.push(x).drop_last() =~= ids);
}

/// Documents by id, each loaded at most once, with the logs they are kept in.
pub struct Database {
    logs: MultiLog,
    docs: Vec<(String, Doc)>,
}

impl Database {
    /// No two loaded documents share an id.
    #[verifier::type_invariant]
    spec fn ids_unique(self) -> bool {
        forall|i: int, j: int| 0 <= i < j < self.docs@.len() ==> #[trigger] self.docs@[i].0@ != #[trigger] self.docs@[j].0@
    }
}

/// A patch that applies to a document, waiting for its log record to be
/// written: the scoped patch, the value it makes, and what it was computed
/// from.
#[derive(Debug)]
pub struct Pending {
    id: String,
    version: usize,
    patch: Patch,
    base: Value,
    value: Value,
    prefix: Vec<String>,
}

impl Pending {
    #[verifier::type_invariant]
    spec fn applies(self) -> bool {
        &&& apply_ops(self.base@, self.patch@) == Ok::<Json, PatchError>(self.value@)
        &&& ops_plain(self.patch@)
    }

    pub closed spec fn id_model(&self) -> Seq<char> {
        self.id@
    }

    pub closed spec fn version_model(&self) -> nat {
        self.version as nat
    }

    /// The patch as it will be logged, with absolute paths.
    pub closed spec fn patch_model(&self) -> Seq<OpModel> {
        self.patch@
    }

    pub closed spec fn base_model(&self) -> Json {
        self.base@
    }

    pub closed spec fn value_model(&self) -> Json {
        self.value@
    }

    pub closed spec fn prefix_model(&self) -> Seq<Seq<char>> {
        path_view(self.prefix@)
    }

    /// The log record of the patch: the value that describes it.
    pub fn entry(&self) -> (r: Value)
        ensures
            r@ == patch_to_json(self.patch_model()),
    {
        self.patch.to_value()
    }

    /// The id of the document the patch is for.
    pub fn id(&self) -> (r: &String)
        ensures
            r@ == self.id_model(),
    {
        &self.id
    }
}

impl Database {
    pub closed spec fn ids(&self) -> Seq<Seq<char>> {
        Seq::new(self.docs@.len(), |i: int| self.docs@[i].0@)
    }

    /// The document with id `id`, if it is loaded.
    pub closed spec fn lookup(&self, id: Seq<char>) -> Option<Doc> {
        let i = id_index(self.ids(), id);
        if i >= 0 {
            Some(self.docs@[i].1)
        } else {
            None
        }
    }

    pub closed spec fn log_dir(&self) -> Seq<char> {
        self.logs.dir()
    }

    fn find(&self, id: &str) -> (r: Option<usize>)
        ensures
            match r {
                Some(i) => i as int == id_index(self.ids(), id@) && i < self.docs@.len(),
                None => id_index(self.ids(), id@) < 0,
            },
    {
        let ghost ids = self.ids();
        let key = String::from_str(id);
        let mut i: usize = 0;
        while i < self.docs.len()
            invariant
                ids == self.ids(),
                key@ == id@,
                i <= self.docs@.len(),
                forall|j: int| 0 <= j < i ==> #[trigger] ids[j] != id@,
            decreases self.docs@.len() - i,
        {
            if self.docs[i].0 == key {
                proof { lemma_id_index_first(ids, id@, i as int); }
                return Some(i);
            }
            assert(ids[i as int] != id@);
            i = i + 1;
        }
        proof { lemma_id_index_first(ids, id@, -1); }
        None
    }

    /// A store with no document loaded, whose logs lie under `dir`.
    pub fn open(dir: &str) -> (r: Database)
        ensures
            forall|id: Seq<char>| #[trigger] r.lookup(id) is None,
            r.log_dir() == dir@,
    {
        let r = Database { logs: MultiLog::new(String::from_str(dir)), docs: Vec::new() };
        assert(r.ids() =~= Seq::<Seq<char>>::empty());
        r
    }

    /// The file that holds the log of document `id`.
    pub fn log_file(&self, id: &str) -> (r: String)
        ensures
            r@ == self.log_dir() + seq!['/'] + id@,
    {
        self.logs.writer(id)
    }

    /// The logs of the store's documents.
    pub fn logs(&self) -> (r: &MultiLog)
        ensures
            r.dir() == self.log_dir(),
    {
        &self.logs
    }

    /// Whether document `id` is loaded.
    pub fn contains(&self, id: &str) -> (r: bool)
        ensures
            r == self.lookup(id@) is Some,
    {
        self.find(id).is_some()
    }
}

/// The log entries handed over for a document: none where it has no log.
pub open spec fn log_lines(log: Option<Vec<Value>>) -> Seq<Json> {
    match log {
        Some(l) => views(l@),
        None => Seq::empty(),
    }
}

impl Database {
    /// What preparing patch `ops` of document `id` under `prefix` gives:
    /// the document must be loaded, every path of the prefixed patch must be
    /// writable as a pointer, and the prefixed patch must apply to the
    /// document's value.
    pub open spec fn staged(
        &self,
        id: Seq<char>,
        ops: Seq<OpModel>,
        prefix: Seq<Seq<char>>,
        r: Result<Pending, DbError>,
    ) -> bool {
        match self.lookup(id) {
            None => r is Err && r->Err_0 is DocumentDoesNotExist,
            Some(d) => if !ops_plain(prefix_ops(prefix, ops)) {
                r is Err && r->Err_0 is UnloggablePath
            } else {
                match apply_ops(d.value_model(), prefix_ops(prefix, ops)) {
                    Ok(nv) => {
                        &&& r is Ok
                        &&& r->Ok_0.id_model() == id
                        &&& r->Ok_0.version_model() == d.version_model()
                        &&& r->Ok_0.patch_model() == prefix_ops(prefix, ops)
                        &&& r->Ok_0.base_model() == d.value_model()
                        &&& r->Ok_0.value_model() == nv
                        &&& r->Ok_0.prefix_model() == prefix
                    },
                    Err(e) => r is Err && r->Err_0 == DbError::PatchError(e),
                }
            },
        }
    }

    /// Inserts document `doc` under `id` unless a document is loaded under
    /// it already, in which case nothing changes. Whether it was inserted.
    pub fn insert_doc(&mut self, id: &str, doc: Doc) -> (r: bool)
        ensures
            old(self).lookup(id@) is Some ==> !r && *final(self) == *old(self),
            old(self).lookup(id@) is None ==> {
                &&& r
                &&& final(self).lookup(id@) == Some(doc)
                &&& forall|x: Seq<char>| x != id@ ==> #[trigger] final(self).lookup(x) == old(self).lookup(x)
            },
            final(self).log_dir() == old(self).log_dir(),
    {
        if self.find(id).is_some() {
            return false;
        }
        let ghost old_ids = self.ids();
        proof {
            use_type_invariant(&*self);
            lemma_id_index(old_ids, id@);
            assert forall|j: int| 0 <= j < old_ids.len() implies #[trigger] self.docs@[j].0@ != id@ by {
                assert(old_ids[j] == self.docs@[j].0@);
            }
        }
        let mut docs: Vec<(String, Doc)> = Vec::new();
        std::mem::swap(&mut docs, &mut self.docs);
        docs.push((String::from_str(id), doc));
        self.docs = docs;
        proof {
            assert(self.ids() =~= old_ids.push(id@));
            lemma_id_index_push(old_ids, id@, id@);
            assert forall|x: Seq<char>| x != id@ implies #[trigger] self.lookup(x) == old(self).lookup(x) by {
                lemma_id_index(old_ids, x);
                lemma_id_index_push(old_ids, x, id@);
            }
        }
        true
    }

    /// Loads document `id` from its log entries (`None`: it has no log yet)
    /// unless it is loaded already, in which case nothing changes. A document
    /// without a log is created empty only where `create` allows it.
    pub fn load(&mut self, id: &str, log: Option<Vec<Value>>, create: bool) -> (r: Result<(), DbError>)
        ensures
            old(self).lookup(id@) is Some ==> r is Ok && *final(self) == *old(self),
            old(self).lookup(id@) is None ==> loaded(*old(self), *final(self), id@, log, create, r),
    {
        if self.find(id).is_some() {
            return Ok(());
        }
        let doc = match Doc::open_log(log, create) {
            Ok(d) => d,
            Err(e) => {
                return Err(e);
            },
        };
        self.insert_doc(id, doc);
        Ok(())
    }

    /// A copy of what document `id` holds at `path`.
    pub fn find_in_doc(&self, id: &str, path: &[String]) -> (r: Result<Value, DbError>)
        ensures
            match self.lookup(id@) {
                None => r is Err && r->Err_0 is DocumentDoesNotExist,
                Some(d) => match get_path(d.value_model(), path_view(path@)) {
                    Some(x) => r is Ok && r->Ok_0@ == x,
                    None => r is Err && r->Err_0 is PathDoesNotExist,
                },
            },
    {
        match self.find(id) {
            None => Err(DbError::DocumentDoesNotExist),
            Some(i) => match locate(&self.docs[i].1.value, path) {
                Some(x) => Ok(x.deep_copy()),
                None => Err(DbError::PathDoesNotExist),
            },
        }
    }

    /// Prepares a patch of loaded document `id` scoped by `prefix`: every
    /// path of the patch gets `prefix` in front, and the result is applied to
    /// a copy of the document. Nothing changes here; `commit` makes it take
    /// effect once its log record is written.
    pub fn prepare_patch(&self, id: &str, patch: Patch, prefix: &[String]) -> (r: Result<Pending, DbError>)
        ensures
            self.staged(id@, patch@, path_view(prefix@), r),
    {
        let i = match self.find(id) {
            None => {
                return Err(DbError::DocumentDoesNotExist);
            },
            Some(i) => i,
        };
        let doc = &self.docs[i].1;
        let scoped = prefix_patch_paths(prefix, patch);
        if !patch_is_plain(&scoped) {
            return Err(DbError::UnloggablePath);
        }
        match apply(&scoped, &doc.value) {
            Err(e) => Err(DbError::PatchError(e)),
            Ok(value) => {
                let mut pre: Vec<String> = Vec::new();
                let mut j: usize = 0;
                while j < prefix.len()
                    invariant
                        j <= prefix@.len(),
                        path_view(pre@) =~= path_view(prefix@).subrange(0, j as int),
                    decreases prefix@.len() - j,
                {
                    let ghost before = pre@;
                    assert(path_view(before).len() == before.len());
                    pre.push(prefix[j].clone());
                    assert(path_view(pre@) =~= path_view(before).push(prefix@[j as int]@));
                    j = j + 1;
                }
                assert(path_view(prefix@).subrange(0, j as int) =~= path_view(prefix@));
                Ok(Pending {
                    id: String::from_str(id),
                    version: doc.version,
                    patch: scoped,
                    base: doc.value.deep_copy(),
                    value,
                    prefix: pre,
                })
            },
        }
    }
}

impl Database {
    /// Makes a prepared patch take effect, once its log record is written:
    /// the document takes the new value, its version grows by one and the
    /// patch joins its history. Where the document changed since the patch
    /// was prepared, nothing changes. The result is what the new value holds
    /// at the patch's prefix.
    pub fn commit(&mut self, p: Pending) -> (r: Result<Value, DbError>)
        ensures
            match old(self).lookup(p.id_model()) {
                None => r is Err && r->Err_0 is DocumentDoesNotExist && *final(self) == *old(self),
                Some(d) => if d.version_model() != p.version_model() || d.value_model() != p.base_model() {
                    r is Err && r->Err_0 is StaleCommit && *final(self) == *old(self)
                } else if d.version_model() == usize::MAX {
                    r is Err && r->Err_0 is TooManyVersions && *final(self) == *old(self)
                } else {
                    &&& final(self).lookup(p.id_model()) is Some
                    &&& final(self).lookup(p.id_model())->0.value_model() == p.value_model()
                    &&& final(self).lookup(p.id_model())->0.version_model() == d.version_model() + 1
                    &&& final(self).lookup(p.id_model())->0.history() == d.history().push(p.patch_model())
                    &&& replay(final(self).lookup(p.id_model())->0.history()) == Some(p.value_model())
                    &&& apply_ops(d.value_model(), p.patch_model()) == Ok::<Json, PatchError>(p.value_model())
                    &&& forall|x: Seq<char>| x != p.id_model() ==> #[trigger] final(self).lookup(x) == old(self).lookup(x)
                    &&& final(self).log_dir() == old(self).log_dir()
                    &&& match get_path(p.value_model(), p.prefix_model()) {
                        Some(x) => r is Ok && r->Ok_0@ == x,
                        None => r is Err && r->Err_0 is PathDoesNotExist,
                    }
                },
            },
    {
        proof { use_type_invariant(&p); }
        let i = match self.find(p.id.as_str()) {
            None => {
                return Err(DbError::DocumentDoesNotExist);
            },
            Some(i) => i,
        };
        let cur = &self.docs[i].1;
        proof { use_type_invariant(cur); }
        let version = cur.version;
        if version != p.version || !self.docs[i].1.value.equals(&p.base) {
            return Err(DbError::StaleCommit);
        }
        if version == usize::MAX {
            return Err(DbError::TooManyVersions);
        }
        let ghost old_doc = self.docs@[i as int].1;
        let ghost h = old_doc.history@;
        let ghost ops = p.patch@;
        let result = match locate(&p.value, p.prefix.as_slice()) {
            Some(x) => Ok(x.deep_copy()),
            None => Err(DbError::PathDoesNotExist),
        };
        let Pending { id: _, version: _, patch: _, base: _, value, prefix: _ } = p;
        proof {
            assert(h.push(ops).drop_last() =~= h);
        }
        let doc = Doc { value, version: version + 1, history: Ghost(h.push(ops)) };
        let ghost old_ids = self.ids();
        let ghost old_docs = self.docs@;
        let ghost pid = p.id_model();
        proof { use_type_invariant(&*self); }
        let mut docs: Vec<(String, Doc)> = Vec::new();
        std::mem::swap(&mut docs, &mut self.docs);
        let (key, _) = docs.remove(i);
        docs.insert(i, (key, doc));
        assert(docs@ =~= old_docs.update(i as int, (key, doc)));
        assert forall|a: int, b: int| 0 <= a < b < docs@.len() implies #[trigger] docs@[a].0@ != #[trigger] docs@[b].0@ by {
            assert(docs@[a].0@ == old_docs[a].0@ && docs@[b].0@ == old_docs[b].0@);
        }
        self.docs = docs;
        proof {
            assert(self.docs@ =~= old_docs.update(i as int, (key, doc)));
            assert(self.ids() =~= old_ids);
            lemma_id_index(old_ids, pid);
            assert(self.docs@[i as int].1 == doc);
            assert(self.lookup(p.id_model()) == Some(doc));
            assert(doc.history@ == old_doc.history@.push(ops));
            assert forall|x: Seq<char>| x != pid implies #[trigger] self.lookup(x) == old(self).lookup(x) by {
                lemma_id_index(old_ids, x);
                if id_index(old_ids, x) == i as int {
                    assert(old_ids[i as int] == x);
                }
            }
        }
        result
    }
}

impl Database {
    /// Prepares patch `patch` of document `id` under `prefix`, loading the
    /// document first from its log entries (`None`: it has no log yet) unless
    /// it is loaded. A scoped request (non-empty prefix) may create the
    /// document, empty at `null`; an unscoped one must find it.
    pub fn patch_doc(
        &mut self,
        id: &str,
        log: Option<Vec<Value>>,
        patch: Patch,
        prefix: &[String],
    ) -> (r: Result<Pending, DbError>)
        ensures
            patched(*old(self), *final(self), id@, log, patch@, path_view(prefix@), r),
            old(self).lookup(id@) is None && log is None && prefix@.len() > 0 ==> {
                &&& final(self).lookup(id@) is Some
                &&& final(self).lookup(id@)->0.value_model() == Json::Null
                &&& final(self).lookup(id@)->0.version_model() == 0
                &&& final(self).staged(id@, patch@, path_view(prefix@), r)
            },
    {
        let create = prefix.len() > 0;
        proof {
            assert(log_lines(None::<Vec<Value>>) =~= Seq::<Json>::empty());
        }
        let loaded = self.load(id, log, create);
        match loaded {
            Err(e) => Err(e),
            Ok(()) => self.prepare_patch(id, patch, prefix),
        }
    }
}

/// Log records written for patches whose paths are all plain read back as
/// those patches: a log made of the records of committed patches loads as
/// their history.
pub proof fn lemma_log_round_trip(h: Seq<Seq<OpModel>>)
    requires
        forall|i: int| 0 <= i < h.len() ==> ops_plain(#[trigger] h[i]),
    ensures
        log_patches(Seq::new(h.len(), |i: int| patch_to_json(h[i]))) == Some(h),
    decreases h.len(),
{
    let lines = Seq::new(h.len(), |i: int| patch_to_json(h[i]));
    if h.len() > 0 {
        let q = h.drop_last();
        assert forall|i: int| 0 <= i < q.len() implies ops_plain(#[trigger] q[i]) by {
            assert(q[i] == h[i]);
        }
        lemma_log_round_trip(q);
        assert(lines.drop_last() =~= Seq::new(q.len(), |i: int| patch_to_json(q[i])));
        assert(ops_plain(h[h.len() - 1]));
        lemma_patch_round_trip(h.last());
        assert(q.push(h.last()) =~= h);
    } else {
        assert(h =~= Seq::<Seq<OpModel>>::empty());
    }
}

/// Reopening a document from the records of the patches committed to it
/// gives back the value they left and a version equal to their number.
pub proof fn lemma_reopen_restores(h: Seq<Seq<OpModel>>, states: Seq<Json>)
    requires
        states.len() == h.len() + 1,
        states[0] == Json::Null,
        forall|i: int| 0 <= i < h.len() ==> apply_ops(states[i], #[trigger] h[i]) == Ok::<Json, PatchError>(states[i + 1]),
        forall|i: int| 0 <= i < h.len() ==> ops_plain(#[trigger] h[i]),
    ensures
        replay_log(Seq::new(h.len(), |i: int| patch_to_json(h[i])))
            == Ok::<(Seq<Seq<OpModel>>, Json), LoadFault>((h, states.last())),
{
    lemma_log_round_trip(h);
    lemma_replay_determinism(h, states);
    lemma_replay_log(Seq::new(h.len(), |i: int| patch_to_json(h[i])));
}

/// The message that a document's writer receives.
#[derive(Debug)]
pub enum Message {
    /// Stop the writer.
    Quit,
    /// Prepare patch of document (id, patch, prefix, log entries of the
    /// document if it has a log).
    Patch(String, Patch, Vec<String>, Option<Vec<Value>>),
}

/// What the writer does next.
#[derive(Debug)]
pub enum Step {
    Stop,
    /// Write the pending record and commit it, or report the failure.
    Reply(Result<Pending, DbError>),
}

/// One step of the writer that serialises the patches of the documents: a
/// patch is prepared through `patch_doc`, loading or creating its document
/// as needed; a quit ends the loop.
pub fn worker(db: &mut Database, msg: Message) -> (r: Step)
    ensures
        msg is Quit ==> r is Stop && *final(db) == *old(db),
        msg is Patch ==> r is Reply && patched(
            *old(db),
            *final(db),
            msg->Patch_0@,
            msg->Patch_3,
            msg->Patch_1@,
            path_view(msg->Patch_2@),
            r->Reply_0,
        ),
{
    match msg {
        Message::Quit => Step::Stop,
        Message::Patch(id, patch, prefix, log) => Step::Reply(db.patch_doc(id.as_str(), log, patch, prefix.as_slice())),
    }
}

/// A patch whose operation at position `k` fails on what the operations
/// before it left fails as a whole, with that failure: no partial result
/// exists to be committed.
pub proof fn lemma_failing_op_fails_patch(v: Json, ops: Seq<OpModel>, k: int, w: Json)
    requires
        0 <= k < ops.len(),
        apply_ops(v, ops.subrange(0, k)) == Ok::<Json, PatchError>(w),
        apply_op_spec(w, ops[k]) is Err,
    ensures
        apply_ops(v, ops) == Err::<Json, PatchError>(apply_op_spec(w, ops[k])->Err_0),
    decreases k,
{
    if k == 0 {
        assert(ops.subrange(0, 0) =~= Seq::<OpModel>::empty());
    } else {
        match apply_op_spec(v, ops[0]) {
            Ok(v1) => {
                let q = ops.drop_first();
                assert(ops.subrange(0, k).drop_first() =~= q.subrange(0, k - 1));
                assert(ops.subrange(0, k)[0] == ops[0]);
                assert(q[k - 1] == ops[k]);
                lemma_failing_op_fails_patch(v1, q, k - 1, w);
            },
            Err(e) => {
                assert(ops.subrange(0, k)[0] == ops[0]);
            },
        }
    }
}

/// Patching a document under prefix `s` leaves it as patching it without a
/// prefix does once every path of the patch starts with `s`.
pub proof fn lemma_prefix_correctness(d: Json, q: Seq<OpModel>, s: Seq<Seq<char>>)
    ensures
        apply_ops(d, prefix_ops(s, q)) == apply_ops(d, prefix_ops(Seq::empty(), prefix_ops(s, q))),
{
    lemma_empty_prefix(prefix_ops(s, q));
}

/// Preparing a patch of a loaded document, one of whose operations fails on
/// what the operations before it left, gives that failure; as preparing
/// changes nothing, the document keeps its value and version.
pub proof fn lemma_prepare_atomic(
    db: Database,
    id: Seq<char>,
    ops: Seq<OpModel>,
    prefix: Seq<Seq<char>>,
    r: Result<Pending, DbError>,
    k: int,
    w: Json,
)
    requires
        db.staged(id, ops, prefix, r),
        db.lookup(id) is Some,
        ops_plain(prefix_ops(prefix, ops)),
        0 <= k < ops.len(),
        apply_ops(db.lookup(id)->0.value_model(), prefix_ops(prefix, ops).subrange(0, k)) == Ok::<Json, PatchError>(w),
        apply_op_spec(w, prefix_ops(prefix, ops)[k]) is Err,
    ensures
        r == Err::<Pending, DbError>(DbError::PatchError(apply_op_spec(w, prefix_ops(prefix, ops)[k])->Err_0)),
{
    lemma_failing_op_fails_patch(db.lookup(id)->0.value_model(), prefix_ops(prefix, ops), k, w);
}

} // verus!
