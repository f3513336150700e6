//! An in-memory model of the persistence directory.
//!
//! The orchestrator's commit protocol is verified against this model, whose
//! operations mirror the documented behaviour of a directory on a platform
//! file system: regular files and links are keyed by unique names, creating
//! a link fails if the name is taken, and renaming a link onto another name
//! atomically replaces it.

use vstd::pervasive::VecAdditionalExecFns;
use vstd::prelude::*;
use crate::consolidate::{bytes_eq, clone_bytes};

verus! {

/// First-match lookup in an association list.
pub open spec fn assoc(t: Seq<(Seq<u8>, Seq<u8>)>, key: Seq<u8>) -> Option<Seq<u8>>
    decreases t.len(),
{
    if t.len() == 0 {
        None
    } else if t[0].0 == key {
        Some(t[0].1)
    } else {
        assoc(t.drop_first(), key)
    }
}

/// The names of an association list, in order.
pub open spec fn keys(t: Seq<(Seq<u8>, Seq<u8>)>) -> Seq<Seq<u8>> {
    t.map_values(|e: (Seq<u8>, Seq<u8>)| e.0)
}

/// A name is bound exactly when it occurs among the keys.
pub proof fn lemma_assoc_keys(t: Seq<(Seq<u8>, Seq<u8>)>, key: Seq<u8>)
    ensures
        assoc(t, key) is Some <==> keys(t).contains(key),
    decreases t.len(),
{
    if t.len() > 0 {
        lemma_assoc_keys(t.drop_first(), key);
        assert(keys(t.drop_first()) =~= keys(t).drop_first());
        if t[0].0 == key {
            assert(keys(t)[0] == key);
        } else {
            if keys(t).contains(key) {
                let i = choose|i: int| 0 <= i < keys(t).len() && keys(t)[i] == key;
                assert(keys(t).drop_first()[i - 1] == key);
            }
            if keys(t).drop_first().contains(key) {
                let i = choose|i: int|
                    0 <= i < keys(t).drop_first().len() && keys(t).drop_first()[i] == key;
                assert(keys(t)[i + 1] == key);
            }
        }
    }
}

/// A directory in memory: whether it exists, its regular files and its
/// links, each keyed by unique names.
pub struct MemDir {
    present: bool,
    files: Vec<(Vec<u8>, Vec<u8>)>,
    links: Vec<(Vec<u8>, Vec<u8>)>,
}

/// Mathematical view of a [`MemDir`].
pub struct MemDirView {
    pub present: bool,
    pub files: Seq<(Seq<u8>, Seq<u8>)>,
    pub links: Seq<(Seq<u8>, Seq<u8>)>,
}

impl MemDirView {
    /// Names are unique, and a directory that does not exist is empty.
    pub open spec fn wf(self) -> bool {
        &&& keys(self.files).no_duplicates()
        &&& keys(self.links).no_duplicates()
        &&& (!self.present ==> self.files.len() == 0 && self.links.len() == 0)
    }
}

impl View for MemDir {
    type V = MemDirView;

    closed spec fn view(&self) -> MemDirView {
        MemDirView {
            present: self.present,
            files: self.files.deep_view(),
            links: self.links.deep_view(),
        }
    }
}

/// Finds the first entry bound to `key`.
#[verifier::loop_isolation(false)]
fn find_key(t: &Vec<(Vec<u8>, Vec<u8>)>, key: &Vec<u8>) -> (r: Option<usize>)
    ensures
        r matches Some(i) ==> 0 <= i < t.deep_view().len() && t.deep_view()[i as int].0 == key@
            && assoc(t.deep_view(), key@) == Some(t.deep_view()[i as int].1) && (forall|j: int|
            0 <= j < i ==> (#[trigger] t.deep_view()[j]).0 != key@),
        r is None ==> assoc(t.deep_view(), key@) is None,
{
    let ghost tv = t.deep_view();
    let mut k: usize = 0;
    proof {
        assert(tv.skip(0) =~= tv);
    }
    while k < t.len()
        invariant
            k <= t.len(),
            assoc(tv, key@) == assoc(tv.skip(k as int), key@),
            forall|j: int| 0 <= j < k ==> (#[trigger] tv[j]).0 != key@,
        decreases t.len() - k,
    {
        proof {
            assert(tv.skip(k as int)[0] == tv[k as int]);
            assert(tv.skip(k as int).drop_first() =~= tv.skip(k + 1));
            assert(t[k as int].0@ == tv[k as int].0);
        }
        if bytes_eq(&t[k].0, key) {
            return Some(k);
        }
        k = k + 1;
    }
    proof {
        assert(tv.skip(t.len() as int) =~= Seq::<(Seq<u8>, Seq<u8>)>::empty());
    }
    None
}

impl MemDir {
    /// A directory that does not exist yet.
    pub fn new() -> (d: MemDir)
        ensures
            d@.present == false,
            d@.files == Seq::<(Seq<u8>, Seq<u8>)>::empty(),
            d@.links == Seq::<(Seq<u8>, Seq<u8>)>::empty(),
            d@.wf(),
    {
        let d = MemDir { present: false, files: Vec::new(), links: Vec::new() };
        proof {
            assert(d@.files =~= Seq::<(Seq<u8>, Seq<u8>)>::empty());
            assert(d@.links =~= Seq::<(Seq<u8>, Seq<u8>)>::empty());
            assert(keys(d@.files) =~= Seq::<Seq<u8>>::empty());
            assert(keys(d@.links) =~= Seq::<Seq<u8>>::empty());
        }
        d
    }

    /// Ensures the directory exists (creating it if missing); its contents
    /// are untouched.
    pub fn create(&mut self)
        requires
            old(self)@.wf(),
        ensures
            final(self)@.wf(),
            final(self)@.present,
            final(self)@.files == old(self)@.files,
            final(self)@.links == old(self)@.links,
    {
        self.present = true;
    }

    /// Whether the directory exists.
    pub fn is_present(&self) -> (r: bool)
        ensures
            r == self@.present,
    {
        self.present
    }

    /// Creates `name` with `data`, or replaces its contents if it already
    /// exists.
    pub fn write_file(&mut self, name: &Vec<u8>, data: Vec<u8>)
        requires
            old(self)@.wf(),
            old(self)@.present,
        ensures
            final(self)@.wf(),
            final(self)@.present,
            final(self)@.links == old(self)@.links,
            forall|n: Seq<u8>|
                #[trigger] assoc(final(self)@.files, n) == (if n == name@ {
                    Some(data@)
                } else {
                    assoc(old(self)@.files, n)
                }),
            keys(final(self)@.files) == (if assoc(old(self)@.files, name@) is Some {
                keys(old(self)@.files)
            } else {
                keys(old(self)@.files).push(name@)
            }),
    {
        let ghost fv = self.files.deep_view();
        let ghost dv = data@;
        match find_key(&self.files, name) {
            Some(i) => {
                let owned = clone_bytes(name);
                self.files.set(i, (owned, data));
                proof {
                    let fv2 = self.files.deep_view();
                    assert(fv2 =~~= fv.update(i as int, (name@, dv)));
                    assert(keys(fv2) =~= keys(fv));
                    lemma_assoc_update(fv, i as int, name@, dv);
                }
            },
            None => {
                let owned = clone_bytes(name);
                self.files.push((owned, data));
                proof {
                    let fv2 = self.files.deep_view();
                    assert(fv2 =~~= fv.push((name@, dv)));
                    assert(keys(fv2) =~= keys(fv).push(name@));
                    lemma_assoc_push(fv, name@, dv);
                    lemma_assoc_keys(fv, name@);
                    lemma_nodup_push(keys(fv), name@);
                }
            },
        }
    }

    /// Removes `name` if it exists; reports whether it did.
    pub fn remove_file(&mut self, name: &Vec<u8>) -> (r: bool)
        requires
            old(self)@.wf(),
        ensures
            final(self)@.wf(),
            final(self)@.present == old(self)@.present,
            final(self)@.links == old(self)@.links,
            r == (assoc(old(self)@.files, name@) is Some),
            forall|n: Seq<u8>|
                #[trigger] assoc(final(self)@.files, n) == (if n == name@ {
                    None
                } else {
                    assoc(old(self)@.files, n)
                }),
            r ==> exists|i: int|
                0 <= i < old(self)@.files.len() && (#[trigger] old(self)@.files[i]).0 == name@
                    && final(self)@.files == old(self)@.files.remove(i),
            !r ==> final(self)@.files == old(self)@.files,
    {
        let ghost fv = self.files.deep_view();
        match find_key(&self.files, name) {
            Some(i) => {
                let ghost iv = i as int;
                self.files.remove(i);
                proof {
                    let fv2 = self.files.deep_view();
                    assert(fv2 =~= fv.remove(iv));
                    lemma_assoc_remove(fv, iv, name@);
                    assert(keys(fv2) =~= keys(fv).remove(iv));
                    lemma_nodup_remove(keys(fv), iv);
                    assert(old(self)@.files[iv].0 == name@);
                }
                true
            },
            None => {
                false
            },
        }
    }

    /// Whether `name` is a link.
    pub fn has_link(&self, name: &Vec<u8>) -> (r: bool)
        ensures
            r == (assoc(self@.links, name@) is Some),
    {
        find_key(&self.links, name).is_some()
    }

    /// Creates the link `name` pointing at `target`; the name must be free,
    /// as it is for the platform link-creation call.
    pub fn create_link(&mut self, name: &Vec<u8>, target: &Vec<u8>)
        requires
            old(self)@.wf(),
            old(self)@.present,
            assoc(old(self)@.links, name@) is None,
        ensures
            final(self)@.wf(),
            final(self)@.present,
            final(self)@.files == old(self)@.files,
            forall|n: Seq<u8>|
                #[trigger] assoc(final(self)@.links, n) == (if n == name@ {
                    Some(target@)
                } else {
                    assoc(old(self)@.links, n)
                }),
    {
        let ghost lv = self.links.deep_view();
        let owned = clone_bytes(name);
        let towned = clone_bytes(target);
        self.links.push((owned, towned));
        proof {
            let lv2 = self.links.deep_view();
            assert(lv2 =~~= lv.push((name@, target@)));
            assert(keys(lv2) =~= keys(lv).push(name@));
            lemma_assoc_push(lv, name@, target@);
            lemma_assoc_keys(lv, name@);
            lemma_nodup_push(keys(lv), name@);
        }
    }

    /// Removes the link `name` if it exists; reports whether it did.
    pub fn remove_link(&mut self, name: &Vec<u8>) -> (r: bool)
        requires
            old(self)@.wf(),
        ensures
            final(self)@.wf(),
            final(self)@.present == old(self)@.present,
            final(self)@.files == old(self)@.files,
            r == (assoc(old(self)@.links, name@) is Some),
            forall|n: Seq<u8>|
                #[trigger] assoc(final(self)@.links, n) == (if n == name@ {
                    None
                } else {
                    assoc(old(self)@.links, n)
                }),
    {
        let ghost lv = self.links.deep_view();
        match find_key(&self.links, name) {
            Some(i) => {
                let ghost iv = i as int;
                self.links.remove(i);
                proof {
                    let lv2 = self.links.deep_view();
                    assert(lv2 =~= lv.remove(iv));
                    lemma_assoc_remove(lv, iv, name@);
                    assert(keys(lv2) =~= keys(lv).remove(iv));
                    lemma_nodup_remove(keys(lv), iv);
                }
                true
            },
            None => {
                false
            },
        }
    }

    /// Atomically renames the link `from` onto the name `to`, replacing any
    /// link already there: afterwards `to` points where `from` pointed and
    /// `from` is gone.
    pub fn rename_link(&mut self, from: &Vec<u8>, to: &Vec<u8>)
        requires
            old(self)@.wf(),
            old(self)@.present,
            assoc(old(self)@.links, from@) is Some,
        ensures
            final(self)@.wf(),
            final(self)@.present,
            final(self)@.files == old(self)@.files,
            forall|n: Seq<u8>|
                #[trigger] assoc(final(self)@.links, n) == (if n == to@ {
                    assoc(old(self)@.links, from@)
                } else if n == from@ {
                    None
                } else {
                    assoc(old(self)@.links, n)
                }),
    {
        let target = match self.read_link(from) {
            Some(t) => t,
            None => {
                proof {
                    assert(false);
                }
                Vec::new()
            },
        };
        self.remove_link(from);
        self.remove_link(to);
        let ghost lv = self.links.deep_view();
        let towned = clone_bytes(&target);
        let fowned = clone_bytes(to);
        self.links.push((fowned, towned));
        proof {
            let lv2 = self.links.deep_view();
            assert(lv2 =~~= lv.push((to@, target@)));
            assert(keys(lv2) =~= keys(lv).push(to@));
            lemma_assoc_push(lv, to@, target@);
            lemma_assoc_keys(lv, to@);
            lemma_nodup_push(keys(lv), to@);
        }
    }

    /// The target of the link `name`, if it is one.
    pub fn read_link(&self, name: &Vec<u8>) -> (r: Option<Vec<u8>>)
        ensures
            r matches Some(t) ==> assoc(self@.links, name@) == Some(t@),
            r is None ==> assoc(self@.links, name@) is None,
    {
        match find_key(&self.links, name) {
            Some(i) => {
                let t = clone_bytes(&self.links[i].1);
                proof {
                    assert(self.links[i as int].1@ == self@.links[i as int].1);
                }
                Some(t)
            },
            None => None,
        }
    }

    /// The contents of the regular file `name`, if it exists.
    pub fn read_file(&self, name: &Vec<u8>) -> (r: Option<Vec<u8>>)
        ensures
            r matches Some(d) ==> assoc(self@.files, name@) == Some(d@),
            r is None ==> assoc(self@.files, name@) is None,
    {
        match find_key(&self.files, name) {
            Some(i) => {
                let d = clone_bytes(&self.files[i].1);
                proof {
                    assert(self.files[i as int].1@ == self@.files[i as int].1);
                }
                Some(d)
            },
            None => None,
        }
    }

    /// The names of the regular files, in directory order (links are not
    /// files and are not listed).
    #[verifier::loop_isolation(false)]
    pub fn list_files(&self) -> (r: Vec<Vec<u8>>)
        ensures
            r.deep_view() == keys(self@.files),
    {
        let mut r: Vec<Vec<u8>> = Vec::new();
        let mut k: usize = 0;
        proof {
            assert(r.deep_view() =~= keys(self@.files).take(0));
        }
        while k < self.files.len()
            invariant
                k <= self.files.len(),
                r.deep_view() == keys(self@.files).take(k as int),
            decreases self.files.len() - k,
        {
            let ghost rpre = r.deep_view();
            let n = clone_bytes(&self.files[k].0);
            r.push(n);
            proof {
                assert(self.files[k as int].0@ == self@.files[k as int].0);
                assert(r.deep_view() =~= rpre.push(self@.files[k as int].0));
                assert(keys(self@.files).take(k + 1) =~= keys(self@.files).take(k as int).push(
                    keys(self@.files)[k as int],
                ));
            }
            k = k + 1;
        }
        proof {
            assert(keys(self@.files).take(self@.files.len() as int) =~= keys(self@.files));
        }
        r
    }

    /// How many regular files the directory holds.
    pub fn file_count(&self) -> (r: usize)
        ensures
            r == self@.files.len(),
    {
        self.files.len()
    }
}

// ---------------------------------------------------------------------------
// Association-list lemmas
// ---------------------------------------------------------------------------
proof fn lemma_assoc_push_one(t: Seq<(Seq<u8>, Seq<u8>)>, key: Seq<u8>, val: Seq<u8>, n: Seq<u8>)
    ensures
        assoc(t.push((key, val)), n) == (if n == key && assoc(t, key) is None {
            Some(val)
        } else {
            assoc(t, n)
        }),
    decreases t.len(),
{
    if t.len() == 0 {
        assert(t.push((key, val))[0] == (key, val));
        assert(t.push((key, val)).drop_first() =~= Seq::<(Seq<u8>, Seq<u8>)>::empty());
        assert(assoc(Seq::<(Seq<u8>, Seq<u8>)>::empty(), n) is None);
    } else {
        assert(t.push((key, val))[0] == t[0]);
        assert(t.push((key, val)).drop_first() =~= t.drop_first().push((key, val)));
        lemma_assoc_push_one(t.drop_first(), key, val, n);
    }
}

/// Pushing a fresh binding leaves other lookups alone and binds the new key.
proof fn lemma_assoc_push(t: Seq<(Seq<u8>, Seq<u8>)>, key: Seq<u8>, val: Seq<u8>)
    requires
        assoc(t, key) is None,
    ensures
        forall|n: Seq<u8>|
            #[trigger] assoc(t.push((key, val)), n) == (if n == key {
                Some(val)
            } else {
                assoc(t, n)
            }),
{
    assert forall|n: Seq<u8>| true implies #[trigger] assoc(t.push((key, val)), n) == (if n == key {
        Some(val)
    } else {
        assoc(t, n)
    }) by {
        lemma_assoc_push_one(t, key, val, n);
    }
}

proof fn lemma_assoc_update_one(
    t: Seq<(Seq<u8>, Seq<u8>)>,
    i: int,
    key: Seq<u8>,
    val: Seq<u8>,
    n: Seq<u8>,
)
    requires
        0 <= i < t.len(),
        t[i].0 == key,
        forall|j: int| 0 <= j < i ==> (#[trigger] t[j]).0 != key,
    ensures
        assoc(t.update(i, (key, val)), n) == (if n == key {
            Some(val)
        } else {
            assoc(t, n)
        }),
    decreases t.len(),
{
    if i == 0 {
        assert(t.update(0, (key, val))[0] == (key, val));
        assert(t.update(0, (key, val)).drop_first() =~= t.drop_first());
    } else {
        assert(t.update(i, (key, val))[0] == t[0]);
        assert(t.update(i, (key, val)).drop_first() =~= t.drop_first().update(i - 1, (key, val)));
        assert forall|j: int| 0 <= j < i - 1 implies (#[trigger] t.drop_first()[j]).0 != key by {
            assert(t.drop_first()[j] == t[j + 1]);
        }
        assert(t.drop_first()[i - 1] == t[i]);
        lemma_assoc_update_one(t.drop_first(), i - 1, key, val, n);
    }
}

/// Updating entry `i` in place rebinds its key and leaves other lookups
/// alone, provided entry `i` is the first one carrying `key`.
proof fn lemma_assoc_update(t: Seq<(Seq<u8>, Seq<u8>)>, i: int, key: Seq<u8>, val: Seq<u8>)
    requires
        0 <= i < t.len(),
        t[i].0 == key,
        forall|j: int| 0 <= j < i ==> (#[trigger] t[j]).0 != key,
    ensures
        forall|n: Seq<u8>|
            #[trigger] assoc(t.update(i, (key, val)), n) == (if n == key {
                Some(val)
            } else {
                assoc(t, n)
            }),
{
    assert forall|n: Seq<u8>| true implies #[trigger] assoc(t.update(i, (key, val)), n) == (if n
        == key {
        Some(val)
    } else {
        assoc(t, n)
    }) by {
        lemma_assoc_update_one(t, i, key, val, n);
    }
}

proof fn lemma_assoc_absent_one(t: Seq<(Seq<u8>, Seq<u8>)>, key: Seq<u8>)
    requires
        forall|j: int| 0 <= j < t.len() ==> (#[trigger] t[j]).0 != key,
    ensures
        assoc(t, key) is None,
    decreases t.len(),
{
    if t.len() > 0 {
        assert forall|j: int| 0 <= j < t.drop_first().len() implies (#[trigger] t.drop_first()[j]).0
            != key by {
            assert(t.drop_first()[j] == t[j + 1]);
        }
        lemma_assoc_absent_one(t.drop_first(), key);
    }
}

proof fn lemma_assoc_remove_one(t: Seq<(Seq<u8>, Seq<u8>)>, i: int, key: Seq<u8>, n: Seq<u8>)
    requires
        0 <= i < t.len(),
        t[i].0 == key,
        forall|j: int| 0 <= j < t.len() && j != i ==> (#[trigger] t[j]).0 != key,
    ensures
        assoc(t.remove(i), n) == (if n == key {
            None
        } else {
            assoc(t, n)
        }),
    decreases t.len(),
{
    if i == 0 {
        assert(t.remove(0) =~= t.drop_first());
        if n == key {
            assert forall|j: int|
                0 <= j < t.drop_first().len() implies (#[trigger] t.drop_first()[j]).0 != key by {
                assert(t.drop_first()[j] == t[j + 1]);
            }
            lemma_assoc_absent_one(t.drop_first(), key);
        }
    } else {
        assert(t.remove(i)[0] == t[0]);
        assert(t.remove(i).drop_first() =~= t.drop_first().remove(i - 1));
        assert forall|j: int|
            0 <= j < t.drop_first().len() && j != i - 1 implies (#[trigger] t.drop_first()[j]).0
            != key by {
            assert(t.drop_first()[j] == t[j + 1]);
        }
        assert(t.drop_first()[i - 1] == t[i]);
        lemma_assoc_remove_one(t.drop_first(), i - 1, key, n);
    }
}

/// Removing entry `i` unbinds its key and leaves other lookups alone,
/// provided the keys are unique and entry `i` carries `key`.
proof fn lemma_assoc_remove(t: Seq<(Seq<u8>, Seq<u8>)>, i: int, key: Seq<u8>)
    requires
        0 <= i < t.len(),
        t[i].0 == key,
        keys(t).no_duplicates(),
        forall|j: int| 0 <= j < i ==> (#[trigger] t[j]).0 != key,
    ensures
        forall|n: Seq<u8>|
            #[trigger] assoc(t.remove(i), n) == (if n == key {
                None
            } else {
                assoc(t, n)
            }),
{
    assert forall|j: int| 0 <= j < t.len() && j != i implies (#[trigger] t[j]).0 != key by {
        assert(keys(t)[i] == key);
        assert(keys(t)[j] == t[j].0);
    }
    assert forall|n: Seq<u8>| true implies #[trigger] assoc(t.remove(i), n) == (if n == key {
        None
    } else {
        assoc(t, n)
    }) by {
        lemma_assoc_remove_one(t, i, key, n);
    }
}

/// Pushing a fresh element keeps a duplicate-free sequence duplicate-free.
proof fn lemma_nodup_push(s: Seq<Seq<u8>>, x: Seq<u8>)
    requires
        s.no_duplicates(),
        !s.contains(x),
    ensures
        s.push(x).no_duplicates(),
{
    assert forall|i: int, j: int|
        0 <= i < j < s.push(x).len() implies s.push(x)[i] != s.push(x)[j] by {
        if j < s.len() {
        } else {
            assert(s.push(x)[i] == s[i]);
        }
    }
}

/// Removing an element keeps a duplicate-free sequence duplicate-free.
proof fn lemma_nodup_remove(s: Seq<Seq<u8>>, i: int)
    requires
        s.no_duplicates(),
        0 <= i < s.len(),
    ensures
        s.remove(i).no_duplicates(),
{
    assert forall|a: int, b: int|
        0 <= a < b < s.remove(i).len() implies s.remove(i)[a] != s.remove(i)[b] by {
        let a0: int = if a < i {
            a
        } else {
            a + 1
        };
        let b0: int = if b < i {
            b
        } else {
            b + 1
        };
        assert(s.remove(i)[a] == s[a0]);
        assert(s.remove(i)[b] == s[b0]);
    }
}

} // verus!
