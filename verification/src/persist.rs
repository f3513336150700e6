//! The versioned-file orchestrator: durable commit of snapshots.
//!
//! Each store writes a fresh timestamped state file, links the staging name
//! to it, and commits by atomically renaming the staging link onto the
//! stable name — a crash at any point leaves either the old stable link or
//! the new one, never a torn state.  After the commit, versioned files
//! beyond the retention count are pruned, newest first by name.  Loads
//! always read through the stable link.
//!
//! The protocol is verified against the in-memory directory model
//! [`MemDir`]; the named fault-injection checkpoints let a harness force any
//! step to fail and observe that a subsequent load still returns the last
//! committed snapshot.  Callers must serialize stores against one instance
//! (single-writer); loads may run concurrently.

use vstd::prelude::*;
use crate::consolidate::clone_bytes;
use crate::error::ErrorReason;
use crate::format::FileFormat;
use crate::memdir::{assoc, keys, MemDir, MemDirView};
use crate::names::{
    lex_lt, sort_names_desc, spec_staging_name, spec_stable_name, spec_versioned_name,
    stable_file_name, staging_file_name, starts_with, versioned_file_name,
};
use crate::state::{BrokerState, BrokerStateView};

verus! {

/// The generic persistence capability: load the last durable snapshot, or
/// persist one now.  What an implementation promises is its own affair; the
/// file-backed orchestrator is driven through [`FilePersistor`].
pub trait Persist {
    /// The error an implementation reports.
    type Error;

    /// Loads the last stored snapshot, or nothing on a first run.
    fn load(&mut self) -> Result<Option<BrokerState>, Self::Error>;

    /// Persists the given snapshot.
    fn store(&mut self, state: BrokerState) -> Result<(), Self::Error>;
}

/// A persistor that does nothing.
#[derive(Clone, Copy, Debug)]
pub struct NullPersistor;

impl Persist for NullPersistor {
    type Error = ErrorReason;

    /// Always reports that there is no prior state.
    fn load(&mut self) -> (r: Result<Option<BrokerState>, ErrorReason>)
        ensures
            r == Ok::<Option<BrokerState>, ErrorReason>(None),
    {
        Ok(None)
    }

    /// Accepts and discards the snapshot.
    fn store(&mut self, _state: BrokerState) -> (r: Result<(), ErrorReason>)
        ensures
            r == Ok::<(), ErrorReason>(()),
    {
        Ok(())
    }
}

/// The named fault-injection checkpoints of the store and load protocols:
/// one for every I/O or encoding step.
#[derive(Clone, Copy, Debug, PartialEq, Eq, Structural)]
pub enum Checkpoint {
    StoreCreateDir,
    StoreFileOpen,
    StoreSerialize,
    StoreSymlinkUnlink,
    StoreSymlink,
    StoreFileRename,
    StoreReadDir,
    StoreEntryUnlink,
    StoreNewFileUnlink,
    LoadFileOpen,
    LoadDeserialize,
}

/// Which checkpoint, if any, is armed to fail before its real operation
/// runs.  Production code uses [`FaultConfig::none`], which makes every
/// check a no-op.
#[derive(Clone, Copy, Debug)]
pub struct FaultConfig {
    armed: Option<Checkpoint>,
}

impl FaultConfig {
    /// Whether `c` is armed.
    pub closed spec fn spec_armed(&self, c: Checkpoint) -> bool {
        self.armed == Some(c)
    }

    /// No checkpoint armed.
    pub fn none() -> (r: FaultConfig)
        ensures
            forall|c: Checkpoint| !r.spec_armed(c),
    {
        FaultConfig { armed: None }
    }

    /// Exactly the checkpoint `c` armed.
    pub fn arm(c: Checkpoint) -> (r: FaultConfig)
        ensures
            forall|c2: Checkpoint| r.spec_armed(c2) <==> c2 == c,
    {
        FaultConfig { armed: Some(c) }
    }

    /// Whether `c` is armed.
    pub fn is_armed(&self, c: Checkpoint) -> (r: bool)
        ensures
            r == self.spec_armed(c),
    {
        match &self.armed {
            Some(a) => *a == c,
            None => false,
        }
    }

    /// At most one checkpoint is ever armed.
    pub proof fn lemma_at_most_one(&self, c1: Checkpoint, c2: Checkpoint)
        ensures
            self.spec_armed(c1) && self.spec_armed(c2) ==> c1 == c2,
    {
    }
}

/// Relies on `std::time::SystemTime::now`: the current time as milliseconds
/// since the Unix epoch, clamped at zero for a clock that reads earlier and
/// truncated to 64 bits.  Nothing is promised of the clock, and no input
/// makes the call panic.
#[verifier::external_body]
fn now_millis() -> u64 {
    std::time::SystemTime::now()
        .duration_since(std::time::UNIX_EPOCH)
        .map(|d| d.as_millis() as u64)
        .unwrap_or(0)
}

/// The sequence number after one store: incremented, wrapping on overflow.
pub open spec fn wrap_inc(s: u16) -> u16 {
    if s == 0xffff {
        0u16
    } else {
        (s + 1) as u16
    }
}

/// What a load through the stable link observes in a directory: no prior
/// state if the stable link is missing (a legitimate first run), the
/// snapshot its target decodes to, or nothing if the target is missing or
/// does not decode.
pub open spec fn spec_load_view<F: FileFormat>(
    fmt: F,
    d: MemDirView,
    stem: Seq<u8>,
    ext: Seq<u8>,
) -> Option<Option<BrokerStateView>> {
    match assoc(d.links, spec_stable_name(stem, ext)) {
        None => Some(None),
        Some(target) => match assoc(d.files, target) {
            None => None,
            Some(bytes) => match fmt.spec_decode(bytes) {
                None => None,
                Some(s) => Some(Some(s)),
            },
        },
    }
}

/// The stem-prefix test used to tell versioned state files apart from other
/// directory entries.
pub open spec fn stem_pred(stem: Seq<u8>) -> spec_fn(Seq<u8>) -> bool {
    |n: Seq<u8>| stem.is_prefix_of(n)
}

/// How many files of the directory carry the stem prefix — the versioned
/// state files, plus any stranger the user put there under the same stem.
pub open spec fn stem_file_count(stem: Seq<u8>, files: Seq<(Seq<u8>, Seq<u8>)>) -> int {
    keys(files).filter(stem_pred(stem)).len() as int
}

/// Whether no checkpoint of the store protocol is armed — the production
/// configuration.
pub open spec fn store_checkpoints_unarmed(fl: FaultConfig) -> bool {
    &&& !fl.spec_armed(Checkpoint::StoreCreateDir)
    &&& !fl.spec_armed(Checkpoint::StoreFileOpen)
    &&& !fl.spec_armed(Checkpoint::StoreSerialize)
    &&& !fl.spec_armed(Checkpoint::StoreSymlinkUnlink)
    &&& !fl.spec_armed(Checkpoint::StoreSymlink)
    &&& !fl.spec_armed(Checkpoint::StoreFileRename)
    &&& !fl.spec_armed(Checkpoint::StoreReadDir)
    &&& !fl.spec_armed(Checkpoint::StoreEntryUnlink)
    &&& !fl.spec_armed(Checkpoint::StoreNewFileUnlink)
}

/// Whether `nm` is lexicographically above every stem-matching file name of
/// `files` — true of a fresh versioned name whenever timestamps move
/// forward, since the zero-padded name layout makes lexicographic and
/// chronological order agree.
pub open spec fn newest_name(stem: Seq<u8>, files: Seq<(Seq<u8>, Seq<u8>)>, nm: Seq<u8>) -> bool {
    forall|n: Seq<u8>|
        #[trigger] keys(files).contains(n) && stem.is_prefix_of(n) ==> lex_lt(n, nm)
}

/// Loads and stores the broker state in a directory of versioned state
/// files behind one stable link, in the format `F`.
///
/// Stores must be serialized per instance — the sequence counter and the
/// staging-link handling assume a single writer.  Loads are read-only and
/// may run concurrently.
#[derive(Clone, Debug)]
pub struct FilePersistor<F> {
    dir: String,
    format: F,
    previous_count: usize,
    /// Bumped on every store to disambiguate stores in the same timestamp.
    seq: u16,
    stem: Vec<u8>,
    ext: Vec<u8>,
    faults: FaultConfig,
}

/// The default stem of state-file names.
pub open spec fn default_stem() -> Seq<u8> {
    seq![115u8, 116u8, 97u8, 116u8, 101u8]
}

/// The default extension of state-file names.
pub open spec fn default_ext() -> Seq<u8> {
    seq![100u8, 97u8, 116u8]
}

impl<F: FileFormat> FilePersistor<F> {
    /// The persistence root directory.
    pub closed spec fn spec_dir(&self) -> Seq<char> {
        self.dir@
    }

    /// The format snapshots are written in.
    pub closed spec fn spec_format(&self) -> F {
        self.format
    }

    /// How many versioned files each successful store retains.
    pub closed spec fn spec_previous_count(&self) -> int {
        self.previous_count as int
    }

    /// The per-instance sequence counter.
    pub closed spec fn spec_seq(&self) -> u16 {
        self.seq
    }

    /// The stem of state-file names.
    pub closed spec fn spec_stem(&self) -> Seq<u8> {
        self.stem@
    }

    /// The extension of state-file names.
    pub closed spec fn spec_ext(&self) -> Seq<u8> {
        self.ext@
    }

    /// The armed fault-injection checkpoints.
    pub closed spec fn spec_faults(&self) -> FaultConfig {
        self.faults
    }

    /// The retention count is at least one: the current state is always
    /// kept.
    pub open spec fn wf(&self) -> bool {
        self.spec_previous_count() >= 1
    }

    /// Everything but the sequence counter is unchanged.
    pub open spec fn same_config(&self, other: &Self) -> bool {
        &&& self.spec_dir() == other.spec_dir()
        &&& self.spec_format() == other.spec_format()
        &&& self.spec_previous_count() == other.spec_previous_count()
        &&& self.spec_stem() == other.spec_stem()
        &&& self.spec_ext() == other.spec_ext()
        &&& self.spec_faults() == other.spec_faults()
    }

    /// A persistor over `dir` in format `format`, with the default names,
    /// the default retention count of 2 (the current state and one rollback
    /// candidate) and no fault armed.
    pub fn new(dir: String, format: F) -> (r: Self)
        ensures
            r.wf(),
            r.spec_dir() == dir@,
            r.spec_format() == format,
            r.spec_previous_count() == 2,
            r.spec_seq() == 0,
            r.spec_stem() == default_stem(),
            r.spec_ext() == default_ext(),
            forall|c: Checkpoint| !r.spec_faults().spec_armed(c),
    {
        let mut stem: Vec<u8> = Vec::new();
        stem.push(115);
        stem.push(116);
        stem.push(97);
        stem.push(116);
        stem.push(101);
        let mut ext: Vec<u8> = Vec::new();
        ext.push(100);
        ext.push(97);
        ext.push(116);
        proof {
            assert(stem@ =~= default_stem());
            assert(ext@ =~= default_ext());
        }
        FilePersistor { dir, format, previous_count: 2, seq: 0, stem, ext, faults: FaultConfig::none() }
    }

    /// Sets the number of past states to keep on disk.  The intent is to
    /// allow rollback to a previous state; the minimum is 1 (the current
    /// state).
    pub fn with_previous_count(self, previous_count: usize) -> (r: Self)
        ensures
            r.wf(),
            r.spec_previous_count() == (if previous_count >= 1 {
                previous_count as int
            } else {
                1
            }),
            r.spec_dir() == self.spec_dir(),
            r.spec_format() == self.spec_format(),
            r.spec_seq() == self.spec_seq(),
            r.spec_stem() == self.spec_stem(),
            r.spec_ext() == self.spec_ext(),
            r.spec_faults() == self.spec_faults(),
    {
        let previous_count = if previous_count >= 1 {
            previous_count
        } else {
            1
        };
        FilePersistor { previous_count, ..self }
    }

    /// Arms the given fault configuration (a no-op configuration in
    /// production; a single checkpoint under a test harness).
    pub fn with_faults(self, faults: FaultConfig) -> (r: Self)
        ensures
            r.spec_faults() == faults,
            r.spec_dir() == self.spec_dir(),
            r.spec_format() == self.spec_format(),
            r.spec_previous_count() == self.spec_previous_count(),
            r.spec_seq() == self.spec_seq(),
            r.spec_stem() == self.spec_stem(),
            r.spec_ext() == self.spec_ext(),
            self.wf() ==> r.wf(),
    {
        FilePersistor { faults, ..self }
    }

    /// The persistence root directory, for the caller that owns the real
    /// file system.
    pub fn dir(&self) -> (r: &String)
        ensures
            r@ == self.spec_dir(),
    {
        &self.dir
    }

    /// The format snapshots are written in.
    pub fn format(&self) -> (r: &F)
        ensures
            *r == self.spec_format(),
    {
        &self.format
    }

    /// The retention count.
    pub fn previous_count(&self) -> (r: usize)
        ensures
            r == self.spec_previous_count(),
    {
        self.previous_count
    }

    /// The stem of state-file names.
    pub fn stem(&self) -> (r: &Vec<u8>)
        ensures
            r@ == self.spec_stem(),
    {
        &self.stem
    }

    /// The extension of state-file names.
    pub fn ext(&self) -> (r: &Vec<u8>)
        ensures
            r@ == self.spec_ext(),
    {
        &self.ext
    }

    /// Bumps the sequence counter and names the state file a store at
    /// `stamp` writes.
    pub fn plan_file_name(&mut self, stamp: u64) -> (r: Vec<u8>)
        ensures
            final(self).same_config(old(self)),
            old(self).wf() ==> final(self).wf(),
            final(self).spec_seq() == wrap_inc(old(self).spec_seq()),
            r@ == spec_versioned_name(
                final(self).spec_stem(),
                final(self).spec_ext(),
                stamp,
                final(self).spec_seq(),
            ),
    {
        self.seq = if self.seq == 0xffff {
            0
        } else {
            self.seq + 1
        };
        versioned_file_name(&self.stem, &self.ext, stamp, self.seq)
    }
}

/// The smaller of two numbers.
pub open spec fn min_int(a: int, b: int) -> int {
    if a <= b {
        a
    } else {
        b
    }
}

/// The UTF-8 bytes of a path, for error payloads.
fn str_bytes(s: &String) -> (r: Vec<u8>)
    ensures
        r@ == vstd::utf8::encode_utf8(s@),
{
    s.as_str().as_bytes_vec()
}

/// Selects the victims of a prune: the stem-matching names of `names`
/// beyond the `keep` lexicographically greatest ones.  The ghost result is
/// the stem-matching names sorted newest-first, from which the victims are
/// the tail.
#[verifier::loop_isolation(false)]
pub fn prune_victims(names: &Vec<Vec<u8>>, stem: &Vec<u8>, keep: usize) -> (r: (
    Vec<Vec<u8>>,
    Ghost<Seq<Seq<u8>>>,
))
    requires
        names.deep_view().no_duplicates(),
    ensures
        ({
            let stems = names.deep_view().filter(stem_pred(stem@));
            let sorted = r.1@;
            &&& sorted.to_multiset() == stems.to_multiset()
            &&& sorted.len() == stems.len()
            &&& sorted.no_duplicates()
            &&& (forall|i: int, j: int|
                0 <= i <= j < sorted.len() ==> !lex_lt(#[trigger] sorted[i], #[trigger] sorted[j]))
            &&& r.0.deep_view() == (if keep <= sorted.len() {
                sorted.skip(keep as int)
            } else {
                Seq::<Seq<u8>>::empty()
            })
        }),
{
    broadcast use vstd::seq_lib::group_to_multiset_ensures;

    let mut flt: Vec<Vec<u8>> = Vec::new();
    let mut k: usize = 0;
    proof {
        reveal(Seq::filter);
        assert(names.deep_view().take(0).filter(stem_pred(stem@)) =~= Seq::<Seq<u8>>::empty());
        assert(flt.deep_view() =~= Seq::<Seq<u8>>::empty());
    }
    while k < names.len()
        invariant
            k <= names.len(),
            flt.deep_view() == names.deep_view().take(k as int).filter(stem_pred(stem@)),
        decreases names.len() - k,
    {
        let ghost nv = names.deep_view();
        proof {
            reveal(Seq::filter);
            assert(nv.take(k + 1).drop_last() =~= nv.take(k as int));
            assert(nv.take(k + 1).last() == nv[k as int]);
            assert(names[k as int].deep_view() == nv[k as int]);
            assert(names[k as int]@ =~= nv[k as int]);
        }
        if starts_with(&names[k], stem) {
            let ghost fpre = flt.deep_view();
            flt.push(clone_bytes(&names[k]));
            proof {
                assert(flt.deep_view() =~~= fpre.push(nv[k as int]));
            }
        }
        k = k + 1;
    }
    proof {
        assert(names.deep_view().take(names.len() as int) =~= names.deep_view());
        crate::names::lemma_filter_nodup(names.deep_view(), stem_pred(stem@));
    }
    let mut sorted_vec = sort_names_desc(flt);
    let ghost sorted = sorted_vec.deep_view();
    proof {
        let stems = names.deep_view().filter(stem_pred(stem@));
        stems.lemma_multiset_has_no_duplicates();
        sorted.lemma_multiset_has_no_duplicates_conv();
        assert(sorted.len() == sorted.to_multiset().len());
        assert(stems.len() == stems.to_multiset().len());
    }
    let victims = if keep < sorted_vec.len() {
        sorted_vec.split_off(keep)
    } else {
        Vec::new()
    };
    proof {
        if keep < sorted.len() {
            assert(victims.deep_view() =~= sorted.skip(keep as int));
        } else {
            assert(victims.deep_view() =~= Seq::<Seq<u8>>::empty());
            if keep <= sorted.len() {
                assert(sorted.skip(keep as int) =~= Seq::<Seq<u8>>::empty());
            }
        }
    }
    (victims, Ghost(sorted))
}

/// A store that leaves the stable link and every file it can reach through
/// it as they were — or repointed at the new snapshot — keeps the loadable
/// state intact.
proof fn lemma_store_safety<F: FileFormat>(
    fmt: F,
    d0: MemDirView,
    d1: MemDirView,
    stem: Seq<u8>,
    ext: Seq<u8>,
    nn: Seq<u8>,
    zv: Seq<u8>,
    sv: BrokerStateView,
)
    requires
        assoc(d1.links, spec_stable_name(stem, ext)) == assoc(d0.links, spec_stable_name(stem, ext)),
        forall|n: Seq<u8>|
            #[trigger] assoc(d1.files, n) == (if n == nn {
                Some(zv)
            } else {
                assoc(d0.files, n)
            }),
        fmt.spec_decode(zv) == Some(sv),
    ensures
        spec_load_view(fmt, d1, stem, ext) == spec_load_view(fmt, d0, stem, ext) || spec_load_view(
            fmt,
            d1,
            stem,
            ext,
        ) == Some(Some(sv)),
{
}

impl<F: FileFormat> FilePersistor<F> {
    /// Loads the snapshot the stable link points at.  A missing stable link
    /// is a legitimate first-run condition and yields `Ok(None)`, not an
    /// error; a dangling link or bytes that do not decode yield an error.
    pub fn load(&self, dir: &MemDir) -> (r: Result<Option<BrokerState>, ErrorReason>)
        ensures
            ({
                let lv = spec_load_view(self.spec_format(), dir@, self.spec_stem(), self.spec_ext());
                let quiet = !self.spec_faults().spec_armed(Checkpoint::LoadFileOpen)
                    && !self.spec_faults().spec_armed(Checkpoint::LoadDeserialize);
                &&& (quiet ==> ((r is Err) <==> (lv is None)))
                &&& (quiet ==> ((r matches Ok(o) && o is None) <==> lv == Some(
                    None::<BrokerStateView>,
                )))
                &&& (r matches Ok(o) ==> (o matches Some(st) ==> lv == Some(Some(st@))))
                &&& (assoc(dir@.links, spec_stable_name(self.spec_stem(), self.spec_ext()))
                    is None ==> (r matches Ok(o) && o is None))
            }),
    {
        let stable = stable_file_name(&self.stem, &self.ext);
        match dir.read_link(&stable) {
            None => Ok(None),
            Some(target) => {
                if self.faults.is_armed(Checkpoint::LoadFileOpen) {
                    return Err(ErrorReason::FileOpen(stable));
                }
                match dir.read_file(&target) {
                    None => Err(ErrorReason::FileOpen(target)),
                    Some(bytes) => {
                        if self.faults.is_armed(Checkpoint::LoadDeserialize) {
                            return Err(ErrorReason::Deserialize);
                        }
                        match self.format.load(bytes.as_slice()) {
                            Ok(s) => Ok(Some(s)),
                            Err(e) => Err(e),
                        }
                    },
                }
            },
        }
    }

    /// Stores one snapshot through the full commit protocol, naming the new
    /// state file with the caller's timestamp.  With no checkpoint armed, a
    /// store of a snapshot the format can encode succeeds outright — a
    /// stale staging link left by an aborted commit is cleared along the
    /// way.
    ///
    /// Crash-point safety: on every failure — every armed checkpoint
    /// included — the loadable state afterwards is either what it was
    /// before the call or the snapshot just stored, never a torn state;
    /// before the commit point the stable link itself is untouched, and
    /// after it the commit stands even when pruning fails.
    /// Retention: on success, if the new name sorts above every stem file
    /// already present (which the zero-padded name layout guarantees while
    /// timestamps move forward), exactly
    /// `min(previous stem files + 1, previous_count)` stem files remain,
    /// the stable link points at the new file, and no staging link is left
    /// behind.
    #[verifier::loop_isolation(false)]
    pub fn store_with_stamp(
        &mut self,
        dir: &mut MemDir,
        state: BrokerState,
        stamp: u64,
    ) -> (r: Result<(), ErrorReason>)
        requires
            old(self).wf(),
            old(dir)@.wf(),
        ensures
            final(self).wf(),
            final(dir)@.wf(),
            final(self).same_config(old(self)),
            final(self).spec_seq() == wrap_inc(old(self).spec_seq()),
            ({
                let stem = old(self).spec_stem();
                let ext = old(self).spec_ext();
                let fmt = old(self).spec_format();
                let fl = old(self).spec_faults();
                let newname = spec_versioned_name(stem, ext, stamp, wrap_inc(old(self).spec_seq()));
                let lv0 = spec_load_view(fmt, old(dir)@, stem, ext);
                let lv1 = spec_load_view(fmt, final(dir)@, stem, ext);
                &&& (r is Err ==> lv1 == lv0 || lv1 == Some(Some(state@)))
                &&& ((store_checkpoints_unarmed(fl) && fmt.spec_can_store(state@)) ==> r is Ok)
                &&& ((!fl.spec_armed(Checkpoint::StoreCreateDir) && !fl.spec_armed(
                    Checkpoint::StoreFileOpen,
                ) && !fl.spec_armed(Checkpoint::StoreNewFileUnlink) && !fmt.spec_can_store(
                    state@,
                )) ==> r == Err::<(), ErrorReason>(ErrorReason::Serialize) && final(dir)@.files
                    == old(dir)@.files && final(dir)@.links == old(dir)@.links)
                &&& ((r is Err && !fl.spec_armed(Checkpoint::StoreReadDir) && !fl.spec_armed(
                    Checkpoint::StoreEntryUnlink,
                )) ==> {
                    &&& assoc(final(dir)@.links, spec_stable_name(stem, ext)) == assoc(
                        old(dir)@.links,
                        spec_stable_name(stem, ext),
                    )
                    &&& (forall|n: Seq<u8>|
                        n != newname ==> #[trigger] assoc(final(dir)@.files, n) == assoc(
                            old(dir)@.files,
                            n,
                        ))
                    &&& (forall|n: Seq<u8>|
                        n != spec_staging_name(stem, ext) ==> #[trigger] assoc(
                            final(dir)@.links,
                            n,
                        ) == assoc(old(dir)@.links, n))
                    &&& (assoc(old(dir)@.links, spec_stable_name(stem, ext)) is None ==> lv1
                        == Some(None::<BrokerStateView>))
                    &&& (assoc(old(dir)@.links, spec_stable_name(stem, ext)) matches Some(t)
                        ==> (t != newname ==> lv1 == lv0))
                })
                &&& ((fl.spec_armed(Checkpoint::StoreReadDir) && fmt.spec_can_store(state@))
                    ==> r is Err && assoc(final(dir)@.links, spec_stable_name(stem, ext)) == Some(
                    newname,
                ) && assoc(final(dir)@.links, spec_staging_name(stem, ext)) is None && lv1 == Some(
                    Some(state@),
                ))
                &&& ((fl.spec_armed(Checkpoint::StoreEntryUnlink) && fmt.spec_can_store(state@))
                    ==> assoc(final(dir)@.links, spec_stable_name(stem, ext)) == Some(newname)
                    && assoc(final(dir)@.links, spec_staging_name(stem, ext)) is None && lv1
                    == Some(Some(state@)))
                &&& (fl.spec_armed(Checkpoint::StoreCreateDir) ==> final(dir)@ == old(dir)@ && (
                r matches Err(e) && e matches ErrorReason::CreateDir(_)))
                &&& (fl.spec_armed(Checkpoint::StoreFileOpen) ==> final(dir)@.files == old(
                    dir,
                )@.files && final(dir)@.links == old(dir)@.links && (r matches Err(e)
                    && e matches ErrorReason::FileOpen(p) && p@ == newname))
                &&& (fl.spec_armed(Checkpoint::StoreSerialize) ==> final(dir)@.files == old(
                    dir,
                )@.files && final(dir)@.links == old(dir)@.links && r == Err::<(), ErrorReason>(
                    ErrorReason::Serialize,
                ))
                &&& (fl.spec_armed(Checkpoint::StoreSymlink) ==> r is Err)
                &&& (fl.spec_armed(Checkpoint::StoreFileRename) ==> r is Err)
                &&& (fl.spec_armed(Checkpoint::StoreReadDir) ==> r is Err)
                &&& ((fl.spec_armed(Checkpoint::StoreSymlinkUnlink) && assoc(
                    old(dir)@.links,
                    spec_staging_name(stem, ext),
                ) is Some) ==> r is Err)
                &&& (r is Ok ==> {
                    &&& final(dir)@.present
                    &&& assoc(final(dir)@.links, spec_stable_name(stem, ext)) == Some(newname)
                    &&& assoc(final(dir)@.links, spec_staging_name(stem, ext)) is None
                    &&& (assoc(final(dir)@.files, newname) matches Some(bytes) ==> fmt.spec_decode(
                        bytes,
                    ) == Some(state@) && lv1 == Some(Some(state@)))
                    &&& (assoc(final(dir)@.files, newname) is None ==> lv1 is None)
                    &&& (forall|n: Seq<u8>|
                        !stem.is_prefix_of(n) ==> #[trigger] assoc(final(dir)@.files, n) == assoc(
                            old(dir)@.files,
                            n,
                        ))
                    &&& (forall|n: Seq<u8>|
                        #[trigger] assoc(final(dir)@.files, n) is Some ==> n == newname || assoc(
                            final(dir)@.files,
                            n,
                        ) == assoc(old(dir)@.files, n))
                    &&& (newest_name(stem, old(dir)@.files, newname) ==> lv1 == Some(Some(state@))
                        && stem_file_count(stem, final(dir)@.files) == min_int(
                        stem_file_count(stem, old(dir)@.files) + 1,
                        old(self).spec_previous_count(),
                    ))
                })
            }),
    {
        let ghost d0 = dir@;
        let ghost sv = state@;
        let ghost stem_s = self.stem@;
        let ghost ext_s = self.ext@;
        let ghost pred = stem_pred(stem_s);
        let name = self.plan_file_name(stamp);
        let ghost nn = name@;
        if self.faults.is_armed(Checkpoint::StoreCreateDir) {
            return Err(ErrorReason::CreateDir(str_bytes(&self.dir)));
        }
        if !dir.is_present() {
            dir.create();
        }
        if self.faults.is_armed(Checkpoint::StoreFileOpen) {
            return Err(ErrorReason::FileOpen(name));
        }
        let mut buf: Vec<u8> = Vec::new();
        let fr = if self.faults.is_armed(Checkpoint::StoreSerialize) {
            Err(ErrorReason::Serialize)
        } else {
            self.format.store(&mut buf, state)
        };
        match fr {
            Err(e) => {
                if self.faults.is_armed(Checkpoint::StoreNewFileUnlink) {
                    return Err(ErrorReason::FileUnlink(name));
                }
                return Err(e);
            },
            Ok(()) => {},
        }
        let ghost zv = buf@;
        proof {
            assert(buf@.skip(0) =~= buf@);
        }
        dir.write_file(&name, buf);
        let staging = staging_file_name(&self.stem, &self.ext);
        proof {
            assert(spec_staging_name(stem_s, ext_s).len() == spec_stable_name(stem_s, ext_s).len()
                + 4);
        }
        if dir.has_link(&staging) {
            if self.faults.is_armed(Checkpoint::StoreSymlinkUnlink) {
                proof {
                    lemma_store_safety(
                        old(self).spec_format(),
                        d0,
                        dir@,
                        stem_s,
                        ext_s,
                        nn,
                        zv,
                        sv,
                    );
                }
                return Err(ErrorReason::SymlinkUnlink(staging));
            }
            dir.remove_link(&staging);
        }
        if self.faults.is_armed(Checkpoint::StoreSymlink) {
            proof {
                lemma_store_safety(old(self).spec_format(), d0, dir@, stem_s, ext_s, nn, zv, sv);
            }
            return Err(ErrorReason::Symlink(staging, name));
        }
        dir.create_link(&staging, &name);
        let stable = stable_file_name(&self.stem, &self.ext);
        if self.faults.is_armed(Checkpoint::StoreFileRename) {
            proof {
                lemma_store_safety(old(self).spec_format(), d0, dir@, stem_s, ext_s, nn, zv, sv);
            }
            return Err(ErrorReason::FileRename(staging, stable));
        }
        dir.rename_link(&staging, &stable);
        if self.faults.is_armed(Checkpoint::StoreReadDir) {
            return Err(ErrorReason::ReadDir(str_bytes(&self.dir)));
        }
        let ghost dc = dir@;
        let listing = dir.list_files();
        let (victims, sorted_g) = prune_victims(&listing, &self.stem, self.previous_count);
        let ghost sorted = sorted_g@;
        let ghost vs = victims.deep_view();
        let ghost stems = keys(dc.files).filter(pred);
        proof {
            broadcast use vstd::seq_lib::group_to_multiset_ensures;

            // the victims are distinct, stem-matching names present in the
            // directory, and never the newest one
            assert(vs.no_duplicates()) by {
                if vs.len() > 0 {
                    assert forall|a: int, b: int| 0 <= a < b < vs.len() implies vs[a] != vs[b] by {
                        assert(vs[a] == sorted[self.previous_count + a]);
                        assert(vs[b] == sorted[self.previous_count + b]);
                    }
                }
            }
            assert forall|m: int| 0 <= m < vs.len() implies stems.contains(#[trigger] vs[m]) by {
                assert(vs[m] == sorted[self.previous_count + m]);
                assert(sorted.contains(vs[m]));
                assert(sorted.to_multiset().contains(vs[m]));
                assert(stems.to_multiset().contains(vs[m]));
            }
            crate::names::lemma_filter_subset(keys(dc.files), pred);
        }
        if victims.len() > 0 && self.faults.is_armed(Checkpoint::StoreEntryUnlink) {
            let victim = clone_bytes(&victims[0]);
            return Err(ErrorReason::FileUnlink(victim));
        }
        let mut vi: usize = 0;
        while vi < victims.len()
            invariant
                vi <= victims.len(),
                dir@.wf(),
                dir@.present,
                dir@.links == dc.links,
                forall|n: Seq<u8>|
                    #[trigger] assoc(dir@.files, n) == (if vs.take(vi as int).contains(n) {
                        None::<Seq<u8>>
                    } else {
                        assoc(dc.files, n)
                    }),
                stem_file_count(stem_s, dir@.files) == stem_file_count(stem_s, dc.files) - vi,
            decreases victims.len() - vi,
        {
            let ghost vv = vs[vi as int];
            let ghost fpre = dir@.files;
            proof {
                assert(victims[vi as int].deep_view() == vv);
                assert(victims[vi as int]@ =~= vv);
                assert(stems.contains(vv));
                assert(keys(dc.files).contains(vv));
                crate::memdir::lemma_assoc_keys(dc.files, vv);
                if vs.take(vi as int).contains(vv) {
                    let a = choose|a: int|
                        0 <= a < vs.take(vi as int).len() && #[trigger] vs.take(vi as int)[a]
                            == vv;
                    assert(vs[a] == vv);
                }
                assert(assoc(dir@.files, vv) is Some);
            }
            let removed = dir.remove_file(&victims[vi]);
            proof {
                assert(removed);
                let i = choose|i: int|
                    0 <= i < fpre.len() && (#[trigger] fpre[i]).0 == vv && dir@.files == fpre.remove(
                        i,
                    );
                assert(keys(dir@.files) =~= keys(fpre).remove(i));
                assert(keys(fpre)[i] == vv);
                assert(pred(vv)) by {
                    let si = choose|si: int| 0 <= si < stems.len() && stems[si] == vv;
                    Seq::lemma_filter_pred(keys(dc.files), pred, si);
                }
                crate::names::lemma_filter_remove_len(keys(fpre), i, pred);
                assert(stem_file_count(stem_s, dir@.files) == stem_file_count(stem_s, fpre) - 1);
                assert forall|n: Seq<u8>| true implies #[trigger] assoc(dir@.files, n) == (if vs.take(
                    vi + 1,
                ).contains(n) {
                    None::<Seq<u8>>
                } else {
                    assoc(dc.files, n)
                }) by {
                    if vs.take(vi + 1).contains(n) {
                        let a = choose|a: int|
                            0 <= a < vs.take(vi + 1).len() && #[trigger] vs.take(vi + 1)[a] == n;
                        if a < vi {
                            assert(vs.take(vi as int)[a] == n);
                            assert(vs.take(vi as int).contains(n));
                        } else {
                            assert(n == vv);
                        }
                    } else {
                        assert(!vs.take(vi as int).contains(n)) by {
                            if vs.take(vi as int).contains(n) {
                                let a = choose|a: int|
                                    0 <= a < vs.take(vi as int).len() && #[trigger] vs.take(
                                        vi as int,
                                    )[a] == n;
                                assert(vs.take(vi + 1)[a] == n);
                            }
                        }
                        assert(n != vv) by {
                            if n == vv {
                                assert(vs.take(vi + 1)[vi as int] == vv);
                            }
                        }
                    }
                }
            }
            vi = vi + 1;
        }
        proof {
            broadcast use vstd::seq_lib::group_to_multiset_ensures;

            let stem = stem_s;
            let ext = ext_s;
            let fmt = old(self).spec_format();
            let newname = nn;
            assert(vs.take(vs.len() as int) =~= vs);
            // the stable link points at the new file and the staging link
            // is gone
            assert(assoc(dir@.links, spec_stable_name(stem, ext)) == Some(nn));
            assert(assoc(dir@.links, spec_staging_name(stem, ext)) is None);
            // files outside the stem are untouched
            assert forall|n: Seq<u8>| !stem.is_prefix_of(n) implies #[trigger] assoc(
                dir@.files,
                n,
            ) == assoc(d0.files, n) by {
                assert(!pred(n));
                if vs.contains(n) {
                    let m = choose|m: int| 0 <= m < vs.len() && vs[m] == n;
                    assert(stems.contains(vs[m]));
                    let si = choose|si: int| 0 <= si < stems.len() && stems[si] == n;
                    Seq::lemma_filter_pred(keys(dc.files), pred, si);
                }
                assert(n != nn) by {
                    assert(stem.is_prefix_of(nn)) by {
                        assert(stem =~= nn.subrange(0, stem.len() as int));
                    }
                }
            }
            if newest_name(stem, d0.files, nn) {
                // the new name is fresh, so writing it added one stem file
                assert(stem.is_prefix_of(nn)) by {
                    assert(stem =~= nn.subrange(0, stem.len() as int));
                }
                assert(assoc(d0.files, nn) is None) by {
                    crate::memdir::lemma_assoc_keys(d0.files, nn);
                    if keys(d0.files).contains(nn) {
                        assert(lex_lt(nn, nn));
                        crate::names::lemma_lex_irrefl(nn);
                    }
                }
                assert(keys(dc.files) == keys(d0.files).push(nn));
                assert(stems == keys(d0.files).filter(pred).push(nn)) by {
                    reveal(Seq::filter);
                    assert(keys(dc.files).drop_last() =~= keys(d0.files));
                    assert(keys(dc.files).last() == nn);
                }
                assert(stems.len() == stem_file_count(stem, d0.files) + 1);
                // the new file is the newest, hence first after sorting and
                // never a victim
                assert(stems.contains(nn)) by {
                    assert(stems[stems.len() - 1] == nn);
                }
                assert(sorted.contains(nn)) by {
                    assert(stems.to_multiset().contains(nn));
                }
                let j = choose|j: int| 0 <= j < sorted.len() && sorted[j] == nn;
                assert(sorted[0] == nn) by {
                    if sorted[0] != nn {
                        assert(sorted.contains(sorted[0]));
                        assert(stems.to_multiset().contains(sorted[0]));
                        assert(stems.contains(sorted[0]));
                        let s0 = choose|s0: int| 0 <= s0 < stems.len() && stems[s0] == sorted[0];
                        assert(lex_lt(sorted[0], nn)) by {
                            if s0 < stems.len() - 1 {
                                assert(keys(d0.files).filter(pred)[s0] == sorted[0]);
                                crate::names::lemma_filter_subset(keys(d0.files), pred);
                                assert(keys(d0.files).filter(pred).contains(sorted[0]));
                                assert(keys(d0.files).contains(sorted[0]));
                                assert(pred(sorted[0])) by {
                                    Seq::lemma_filter_pred(keys(dc.files), pred, s0);
                                }
                            } else {
                                assert(stems[s0] == nn);
                                assert(false);
                            }
                        }
                        assert(!lex_lt(sorted[0], sorted[j]));
                        assert(j != 0);
                        assert(false);
                    }
                }
                assert(!vs.contains(nn)) by {
                    if vs.contains(nn) {
                        let m = choose|m: int| 0 <= m < vs.len() && vs[m] == nn;
                        assert(vs[m] == sorted[self.previous_count + m]);
                        assert(sorted[0] == sorted[self.previous_count + m]);
                        assert(self.previous_count + m != 0);
                    }
                }
                assert(assoc(dir@.files, nn) == Some(zv));
                assert(fmt.spec_decode(zv) == Some(sv));
                // the retention count
                assert(vs.len() == (if self.previous_count <= sorted.len() {
                    sorted.len() - self.previous_count
                } else {
                    0int
                }));
                assert(stem_file_count(stem, dir@.files) == min_int(
                    stem_file_count(stem, d0.files) + 1,
                    self.previous_count as int,
                ));
            }
        }
        Ok(())
    }

    /// Stores one snapshot, stamped with the current wall clock.  On any
    /// failure the loadable state is either what it was before the call or
    /// the snapshot just stored; on success the stable link points at the
    /// newly written state file and no staging link remains.
    pub fn store(&mut self, dir: &mut MemDir, state: BrokerState) -> (r: Result<(), ErrorReason>)
        requires
            old(self).wf(),
            old(dir)@.wf(),
        ensures
            final(self).wf(),
            final(dir)@.wf(),
            final(self).same_config(old(self)),
            final(self).spec_seq() == wrap_inc(old(self).spec_seq()),
            ({
                let stem = old(self).spec_stem();
                let ext = old(self).spec_ext();
                let fmt = old(self).spec_format();
                let lv0 = spec_load_view(fmt, old(dir)@, stem, ext);
                let lv1 = spec_load_view(fmt, final(dir)@, stem, ext);
                &&& (r is Err ==> lv1 == lv0 || lv1 == Some(Some(state@)))
                &&& ((store_checkpoints_unarmed(old(self).spec_faults()) && fmt.spec_can_store(
                    state@,
                )) ==> r is Ok)
                &&& (r is Ok ==> lv1 == Some(Some(state@)) || lv1 is None)
                &&& (r is Ok ==> assoc(final(dir)@.links, spec_staging_name(stem, ext)) is None
                    && (assoc(final(dir)@.links, spec_stable_name(stem, ext)) is Some))
            }),
    {
        let stamp = now_millis();
        self.store_with_stamp(dir, state, stamp)
    }
}

/// Chronologically stamped stores always write the newest name: if every
/// stem-matching file in the directory is a versioned name stamped strictly
/// below `stamp`, then the name of a store at `stamp` sorts above them all,
/// and the retention clause of [`FilePersistor::store_with_stamp`] applies
/// with certainty.
pub proof fn lemma_fresh_stamp_is_newest(
    stem: Seq<u8>,
    ext: Seq<u8>,
    files: Seq<(Seq<u8>, Seq<u8>)>,
    stamp: u64,
    seqno: u16,
)
    requires
        forall|n: Seq<u8>|
            #[trigger] keys(files).contains(n) && stem.is_prefix_of(n) ==> exists|s0: u64, q0: u16|
                n == #[trigger] spec_versioned_name(stem, ext, s0, q0) && s0 < stamp,
    ensures
        newest_name(stem, files, spec_versioned_name(stem, ext, stamp, seqno)),
{
    assert forall|n: Seq<u8>|
        #[trigger] keys(files).contains(n) && stem.is_prefix_of(n) implies lex_lt(
        n,
        spec_versioned_name(stem, ext, stamp, seqno),
    ) by {
        let (s0, q0) = choose|s0: u64, q0: u16|
            n == #[trigger] spec_versioned_name(stem, ext, s0, q0) && s0 < stamp;
        crate::names::lemma_versioned_name_order(stem, ext, s0, q0, stamp, seqno);
    }
}

} // verus!
