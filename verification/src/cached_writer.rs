use vstd::prelude::*;

use crate::bytes::push_bytes;
use crate::bytes::bytes_eq;

verus! {

/// The error a persistence capability reports; it aborts the whole run.
#[derive(Debug)]
pub struct WriteError;

/// The size a key's buffer must exceed to trigger a physical flush on write.
pub const OUTPUT_FLUSH_THRESHOLD: usize = 2 * 1024 * 1024;

/// The injected write-or-append capability the writer persists through.
/// An implementation models a keyed store of byte contents: writing with
/// `append` false makes the destination hold exactly `content`; with
/// `append` true it extends an existing destination. Every successful
/// physical write counts one event.
pub trait FileWriter: Sized {
    /// The implementation's own well-formedness.
    open spec fn inv(&self) -> bool {
        true
    }

    /// The contents the store holds, by destination path.
    open spec fn files(&self) -> Map<Seq<u8>, Seq<u8>> {
        Map::empty()
    }

    /// How many physical writes have succeeded.
    open spec fn events(&self) -> nat {
        0
    }

    /// Persists `content` to `path`, truncating or appending.
    fn write(&mut self, path: &Vec<u8>, content: &Vec<u8>, append: bool) -> (r: Result<
        (),
        WriteError,
    >)
        requires
            old(self).inv(),
        ensures
            final(self).inv(),
            r is Ok ==> final(self).events() == old(self).events() + 1,
            r is Ok && !append ==> final(self).files() == old(self).files().insert(
                path@,
                content@,
            ),
            r is Ok && append ==> old(self).files().contains_key(path@) && final(self).files()
                == old(self).files().insert(path@, old(self).files()[path@].add(content@)),
            r is Err ==> forall|p: Seq<u8>|
                p != path@ ==> #[trigger] final(self).files().contains_key(p) == old(
                    self,
                ).files().contains_key(p),
            r is Err ==> forall|p: Seq<u8>|
                #![trigger final(self).files()[p]]
                p != path@ && old(self).files().contains_key(p) ==> final(self).files()[p]
                    == old(self).files()[p],
    ;
}

/// One key's accumulation state.
struct WriterEntry {
    key: Vec<u8>,
    buf: Vec<u8>,
    created: bool,
}

/// The mathematical image of one key's accumulation state.
pub ghost struct WriterEntryM {
    pub key: Seq<u8>,
    pub buf: Seq<u8>,
    pub created: bool,
}

/// First index holding `k`, or -1.
pub open spec fn find_key(s: Seq<WriterEntryM>, k: Seq<u8>) -> int
    decreases s.len(),
{
    if s.len() == 0 {
        -1
    } else if s[0].key == k {
        0
    } else {
        let r = find_key(s.drop_first(), k);
        if r == -1 {
            -1
        } else {
            r + 1
        }
    }
}

pub proof fn lemma_find_key_props(s: Seq<WriterEntryM>, k: Seq<u8>)
    ensures
        find_key(s, k) == -1 ==> forall|i: int| 0 <= i < s.len() ==> (#[trigger] s[i]).key != k,
        find_key(s, k) != -1 ==> 0 <= find_key(s, k) < s.len() && s[find_key(s, k)].key == k
            && forall|i: int| 0 <= i < find_key(s, k) ==> (#[trigger] s[i]).key != k,
    decreases s.len(),
{
    if s.len() > 0 && s[0].key != k {
        lemma_find_key_props(s.drop_first(), k);
        assert(forall|i: int|
            1 <= i < s.len() ==> #[trigger] s[i] == s.drop_first()[i - 1]);
    }
}

/// How many entries hold a non-empty buffer.
pub open spec fn count_nonempty(s: Seq<WriterEntryM>) -> nat
    decreases s.len(),
{
    if s.len() == 0 {
        0
    } else {
        count_nonempty(s.drop_first()) + if s[0].buf.len() > 0 {
            1nat
        } else {
            0nat
        }
    }
}

/// The `.txt` suffix of every destination.
pub open spec fn txt_ext() -> Seq<u8> {
    seq![46u8, 116u8, 120u8, 116u8]
}

/// The destination path for a key: the folder prefix (which carries its
/// own trailing separator) followed by the key and `.txt`.
pub open spec fn path_of(folder: Seq<u8>, k: Seq<u8>) -> Seq<u8> {
    folder.add(k).add(txt_ext())
}

/// Distinct keys under one folder write to distinct destinations.
pub proof fn lemma_path_of_injective(folder: Seq<u8>, k1: Seq<u8>, k2: Seq<u8>)
    requires
        path_of(folder, k1) == path_of(folder, k2),
    ensures
        k1 == k2,
{
    let p1 = path_of(folder, k1);
    let p2 = path_of(folder, k2);
    assert(p1.len() == folder.len() + k1.len() + 4);
    assert(p2.len() == folder.len() + k2.len() + 4);
    assert(k1.len() == k2.len());
    assert(k1 =~= k2) by {
        assert forall|i: int| 0 <= i < k1.len() implies k1[i] == k2[i] by {
            assert(p1[folder.len() + i] == k1[i]);
            assert(p2[folder.len() + i] == k2[i]);
        }
    }
}

/// The keyed, size-thresholded buffered writer: text accumulates per key in
/// memory and reaches the persistence capability on crossing the threshold
/// and on the final flush; the first physical flush of a key creates its
/// destination, every later one appends.
pub struct CachedWriter<T: FileWriter> {
    folder: Vec<u8>,
    entries: Vec<WriterEntry>,
    writer: T,
}

impl<T: FileWriter> CachedWriter<T> {
    /// The folder destinations live in.
    pub closed spec fn folder(&self) -> Seq<u8> {
        self.folder@
    }

    /// The per-key accumulation states, in first-write order.
    pub closed spec fn entries_m(&self) -> Seq<WriterEntryM> {
        Seq::new(
            self.entries@.len(),
            |i: int|
                WriterEntryM {
                    key: self.entries@[i].key@,
                    buf: self.entries@[i].buf@,
                    created: self.entries@[i].created,
                },
        )
    }

    /// The capability's state.
    pub closed spec fn writer_state(&self) -> T {
        self.writer
    }

    pub open spec fn writer_files(&self) -> Map<Seq<u8>, Seq<u8>> {
        self.writer_state().files()
    }

    pub open spec fn writer_events(&self) -> nat {
        self.writer_state().events()
    }

    /// Whether a key has ever been written through this writer.
    pub open spec fn has_key(&self, k: Seq<u8>) -> bool {
        find_key(self.entries_m(), k) != -1
    }

    /// The key's pending in-memory text.
    pub open spec fn buf_of(&self, k: Seq<u8>) -> Seq<u8> {
        let i = find_key(self.entries_m(), k);
        if i == -1 {
            Seq::empty()
        } else {
            self.entries_m()[i].buf
        }
    }

    /// Whether the key's destination has been physically created.
    pub open spec fn is_active(&self, k: Seq<u8>) -> bool {
        let i = find_key(self.entries_m(), k);
        i != -1 && self.entries_m()[i].created
    }

    /// Everything written through this writer for a key, persisted or
    /// pending.
    pub open spec fn total_of(&self, k: Seq<u8>) -> Seq<u8> {
        let persisted = if self.is_active(k) {
            self.writer_files()[path_of(self.folder(), k)]
        } else {
            Seq::empty()
        };
        persisted.add(self.buf_of(k))
    }

    /// Keys are unique, the capability is well formed, and a created key's
    /// destination exists in the store.
    pub open spec fn wf(&self) -> bool {
        &&& forall|i: int, j: int|
            0 <= i < j < self.entries_m().len() ==> (#[trigger] self.entries_m()[i]).key != (
            #[trigger] self.entries_m()[j]).key
        &&& self.writer_state().inv()
        &&& forall|i: int|
            0 <= i < self.entries_m().len() && (#[trigger] self.entries_m()[i]).created
                ==> self.writer_files().contains_key(
                path_of(self.folder(), self.entries_m()[i].key),
            )
    }

    /// A fresh writer over a folder prefix (trailing separator included)
    /// and a capability: no keys yet.
    pub fn new(folder: Vec<u8>, writer: T) -> (r: CachedWriter<T>)
        requires
            writer.inv(),
        ensures
            r.wf(),
            r.folder() == folder@,
            r.entries_m().len() == 0,
            r.writer_state() == writer,
    {
        let r = CachedWriter { folder, entries: Vec::new(), writer };
        proof {
            assert(r.entries_m() =~= Seq::<WriterEntryM>::empty());
        }
        r
    }

    /// A view of the capability, for inspecting what was persisted.
    pub fn writer(&self) -> (r: &T)
        ensures
            *r == self.writer_state(),
    {
        &self.writer
    }
}


/// `find_key` looks only at the keys.
pub proof fn lemma_find_key_same_keys(s1: Seq<WriterEntryM>, s2: Seq<WriterEntryM>, k: Seq<u8>)
    requires
        s1.len() == s2.len(),
        forall|i: int| 0 <= i < s1.len() ==> (#[trigger] s1[i]).key == (#[trigger] s2[i]).key,
    ensures
        find_key(s1, k) == find_key(s2, k),
    decreases s1.len(),
{
    if s1.len() > 0 {
        assert(forall|i: int|
            0 <= i < s1.drop_first().len() ==> (#[trigger] s1.drop_first()[i]).key == s1[i + 1].key
                && (#[trigger] s2.drop_first()[i]).key == s2[i + 1].key);
        lemma_find_key_same_keys(s1.drop_first(), s2.drop_first(), k);
    }
}

pub proof fn lemma_find_key_push(s: Seq<WriterEntryM>, e: WriterEntryM, k: Seq<u8>)
    ensures
        find_key(s, k) != -1 ==> find_key(s.push(e), k) == find_key(s, k),
        find_key(s, k) == -1 && e.key == k ==> find_key(s.push(e), k) == s.len() as int,
        find_key(s, k) == -1 && e.key != k ==> find_key(s.push(e), k) == -1,
    decreases s.len(),
{
    if s.len() == 0 {
        assert(s.push(e)[0] == e);
        assert(s.push(e).drop_first() =~= Seq::<WriterEntryM>::empty());
        assert(find_key(Seq::<WriterEntryM>::empty(), k) == -1);
        assert(find_key(s, k) == -1);
        if e.key == k {
            assert(find_key(s.push(e), k) == 0);
        } else {
            assert(find_key(s.push(e).drop_first(), k) == -1);
            assert(find_key(s.push(e), k) == -1);
        }
    } else {
        assert(s.push(e)[0] == s[0]);
        assert(s.push(e).drop_first() =~= s.drop_first().push(e));
        lemma_find_key_push(s.drop_first(), e, k);
        assert(find_key(s.push(e).drop_first(), k) == find_key(s.drop_first().push(e), k));
        if s[0].key == k {
            assert(find_key(s.push(e), k) == 0);
            assert(find_key(s, k) == 0);
        } else {
            let m = find_key(s.drop_first(), k);
            assert(find_key(s.push(e), k) == if find_key(s.drop_first().push(e), k) == -1 {
                -1int
            } else {
                find_key(s.drop_first().push(e), k) + 1
            });
            if m != -1 {
                lemma_find_key_props(s.drop_first(), k);
                assert(m >= 0);
                assert(find_key(s, k) == m + 1);
            } else if e.key == k {
                assert(find_key(s.drop_first().push(e), k) == s.drop_first().len());
                assert(find_key(s.push(e), k) == s.len());
                assert(find_key(s, k) == -1);
            } else {
                assert(find_key(s.push(e), k) == -1);
                assert(find_key(s, k) == -1);
            }
        }
    }
}

pub proof fn lemma_count_nonempty_push(s: Seq<WriterEntryM>, e: WriterEntryM)
    ensures
        count_nonempty(s.push(e)) == count_nonempty(s) + if e.buf.len() > 0 {
            1nat
        } else {
            0nat
        },
    decreases s.len(),
{
    if s.len() == 0 {
        assert(s.push(e)[0] == e);
        assert(s.push(e).drop_first() =~= Seq::<WriterEntryM>::empty());
        assert(count_nonempty(Seq::<WriterEntryM>::empty()) == 0);
        assert(count_nonempty(s) == 0);
    } else {
        assert(s.push(e)[0] == s[0]);
        assert(s.push(e).drop_first() =~= s.drop_first().push(e));
        lemma_count_nonempty_push(s.drop_first(), e);
    }
}

impl<T: FileWriter> CachedWriter<T> {
    /// The destination path for a key under this writer's folder.
    fn make_path(&self, key: &Vec<u8>) -> (r: Vec<u8>)
        ensures
            r@ == path_of(self.folder(), key@),
    {
        let mut p = self.folder.clone();
        push_bytes(&mut p, key);
        p.push(46u8);
        p.push(116u8);
        p.push(120u8);
        p.push(116u8);
        proof {
            assert(p@ =~= path_of(self.folder(), key@));
        }
        p
    }

    /// The index of a key's entry, if the key was ever written.
    fn find_entry(&self, token: &Vec<u8>) -> (r: Option<usize>)
        ensures
            match r {
                Some(i) => i < self.entries_m().len() && find_key(self.entries_m(), token@)
                    == i as int,
                None => find_key(self.entries_m(), token@) == -1,
            },
    {
        let mut j: usize = 0;
        while j < self.entries.len()
            invariant
                j <= self.entries_m().len(),
                forall|i: int| 0 <= i < j ==> (#[trigger] self.entries_m()[i]).key != token@,
            decreases self.entries.len() - j,
        {
            if bytes_eq(&self.entries[j].key, token) {
                proof {
                    assert(self.entries_m()[j as int].key == token@);
                    lemma_find_key_props(self.entries_m(), token@);
                    let f = find_key(self.entries_m(), token@);
                    assert(f != -1) by {
                        if f == -1 {
                            assert(self.entries_m()[j as int].key != token@);
                        }
                    }
                    assert(f == j as int) by {
                        if f < j {
                            assert(self.entries_m()[f].key == token@);
                        }
                        if f > j {
                            assert(self.entries_m()[j as int].key != token@);
                        }
                    }
                }
                return Some(j);
            }
            j = j + 1;
        }
        proof {
            lemma_find_key_props(self.entries_m(), token@);
            let f = find_key(self.entries_m(), token@);
            if f != -1 {
                assert(self.entries_m()[f].key != token@);
            }
        }
        None
    }

    /// Physically flushes one entry: truncating on the key's first flush,
    /// appending on every later one; a successful flush clears the buffer
    /// and keeps the key live.
    fn do_write(&mut self, idx: usize) -> (r: Result<(), WriteError>)
        requires
            old(self).wf(),
            idx < old(self).entries_m().len(),
        ensures
            final(self).folder() == old(self).folder(),
            final(self).entries_m().len() == old(self).entries_m().len(),
            forall|i: int|
                0 <= i < old(self).entries_m().len() && i != idx ==> final(self).entries_m()[i]
                    == old(self).entries_m()[i],
            final(self).entries_m()[idx as int].key == old(self).entries_m()[idx as int].key,
            final(self).writer_state().inv(),
            r is Ok ==> ({
                let key = old(self).entries_m()[idx as int].key;
                let path = path_of(old(self).folder(), key);
                let persisted = if old(self).entries_m()[idx as int].created {
                    old(self).writer_files()[path]
                } else {
                    Seq::<u8>::empty()
                };
                &&& final(self).wf()
                &&& final(self).entries_m()[idx as int].buf == Seq::<u8>::empty()
                &&& final(self).entries_m()[idx as int].created
                &&& final(self).writer_events() == old(self).writer_events() + 1
                &&& final(self).writer_files() == old(self).writer_files().insert(
                    path,
                    persisted.add(old(self).entries_m()[idx as int].buf),
                )
            }),
            r is Err ==> final(self).entries_m() == old(self).entries_m(),
            r is Err ==> forall|p: Seq<u8>|
                p != path_of(old(self).folder(), old(self).entries_m()[idx as int].key)
                    ==> #[trigger] final(self).writer_files().contains_key(p) == old(
                    self,
                ).writer_files().contains_key(p),
            r is Err ==> forall|p: Seq<u8>|
                #![trigger final(self).writer_files()[p]]
                p != path_of(old(self).folder(), old(self).entries_m()[idx as int].key) && old(
                    self,
                ).writer_files().contains_key(p) ==> final(self).writer_files()[p] == old(
                    self,
                ).writer_files()[p],
    {
        let key = self.entries[idx].key.clone();
        let created = self.entries[idx].created;
        let buf = self.entries[idx].buf.clone();
        let path = self.make_path(&key);
        let ghost em0 = self.entries_m();
        let res = self.writer.write(&path, &buf, created);
        match res {
            Ok(_) => {
                self.entries[idx] = WriterEntry { key, buf: Vec::new(), created: true };
                proof {
                    assert(Seq::<u8>::empty().add(em0[idx as int].buf) =~= em0[idx as int].buf);
                    let em1 = self.entries_m();
                    assert(em1 =~= em0.update(
                        idx as int,
                        WriterEntryM { key: em0[idx as int].key, buf: Seq::empty(), created: true },
                    ));
                    assert forall|i: int, j: int| 0 <= i < j < em1.len() implies (
                    #[trigger] em1[i]).key != (#[trigger] em1[j]).key by {
                        assert(em1[i].key == em0[i].key);
                        assert(em1[j].key == em0[j].key);
                    }
                    assert forall|i: int|
                        0 <= i < em1.len() && (#[trigger] em1[i]).created implies self
                        .writer_files().contains_key(path_of(self.folder(), em1[i].key)) by {
                        assert(em1[i].key == em0[i].key);
                        if i != idx && em0[i].created {
                            assert(old(self).writer_files().contains_key(
                                path_of(old(self).folder(), em0[i].key),
                            ));
                        }
                    }
                }
                Ok(())
            },
            Err(e) => {
                proof {
                    assert(self.entries_m() =~= em0);
                }
                Err(e)
            },
        }
    }
}


impl<T: FileWriter> CachedWriter<T> {
    /// Appends `content` to the key's buffer, creating the key on first
    /// use; a buffer that then exceeds the flush threshold is physically
    /// flushed as part of this call, truncating the destination on the
    /// key's first flush and appending on every later one.
    pub fn write(&mut self, token: &Vec<u8>, content: &Vec<u8>) -> (r: Result<(), WriteError>)
        requires
            old(self).wf(),
        ensures
            final(self).folder() == old(self).folder(),
            final(self).has_key(token@),
            forall|k: Seq<u8>| old(self).has_key(k) ==> final(self).has_key(k),
            forall|k: Seq<u8>| k != token@ ==> final(self).buf_of(k) == old(self).buf_of(k),
            forall|k: Seq<u8>| k != token@ ==> final(self).is_active(k) == old(self).is_active(k),
            r is Ok ==> final(self).wf(),
            r is Ok ==> forall|k: Seq<u8>|
                final(self).total_of(k) == if k == token@ {
                    old(self).total_of(k).add(content@)
                } else {
                    old(self).total_of(k)
                },
            ({
                let nb = old(self).buf_of(token@).add(content@);
                let path = path_of(old(self).folder(), token@);
                &&& (nb.len() <= OUTPUT_FLUSH_THRESHOLD ==> r is Ok && final(self).buf_of(token@)
                    == nb && final(self).writer_state() == old(self).writer_state()
                    && final(self).is_active(token@) == old(self).is_active(token@))
                &&& (nb.len() > OUTPUT_FLUSH_THRESHOLD && r is Ok ==> {
                    &&& final(self).buf_of(token@) == Seq::<u8>::empty()
                    &&& final(self).is_active(token@)
                    &&& final(self).writer_events() == old(self).writer_events() + 1
                    &&& (!old(self).is_active(token@) ==> final(self).writer_files() == old(
                        self,
                    ).writer_files().insert(path, nb))
                    &&& (old(self).is_active(token@) ==> final(self).writer_files() == old(
                        self,
                    ).writer_files().insert(path, old(self).writer_files()[path].add(nb)))
                })
                &&& (r is Err ==> nb.len() > OUTPUT_FLUSH_THRESHOLD && final(self).buf_of(token@)
                    == nb && final(self).is_active(token@) == old(self).is_active(token@))
            }),
            r is Err ==> forall|k: Seq<u8>|
                k != token@ ==> #[trigger] final(self).total_of(k) == old(self).total_of(k),
    {
        let ghost em_old = self.entries_m();
        let idx: usize;
        match self.find_entry(token) {
            Some(i) => {
                idx = i;
            },
            None => {
                let ghost newm = WriterEntryM {
                    key: token@,
                    buf: Seq::<u8>::empty(),
                    created: false,
                };
                self.entries.push(
                    WriterEntry { key: token.clone(), buf: Vec::new(), created: false },
                );
                idx = self.entries.len() - 1;
                proof {
                    assert(self.entries_m() =~= em_old.push(newm));
                    lemma_find_key_push(em_old, newm, token@);
                    lemma_find_key_props(em_old, token@);
                }
            },
        }
        let ghost st0 = *self;
        proof {
            lemma_find_key_props(em_old, token@);
            lemma_find_key_props(st0.entries_m(), token@);
            assert(find_key(st0.entries_m(), token@) == idx as int);
            assert(st0.entries_m()[idx as int].key == token@);
            assert forall|k: Seq<u8>| true implies #[trigger] st0.buf_of(k) == old(self).buf_of(k)
                && st0.is_active(k) == old(self).is_active(k) && (st0.has_key(k) <==> (old(
                self,
            ).has_key(k) || k == token@)) by {
                if k == token@ {
                    assert(find_key(st0.entries_m(), token@) == idx as int);
                }
                if st0.entries_m().len() == em_old.len() {
                } else {
                    let newm = WriterEntryM {
                        key: token@,
                        buf: Seq::<u8>::empty(),
                        created: false,
                    };
                    lemma_find_key_push(em_old, newm, k);
                    lemma_find_key_props(em_old, k);
                    if find_key(em_old, k) != -1 {
                        assert(st0.entries_m()[find_key(em_old, k)] == em_old[find_key(
                            em_old,
                            k,
                        )]);
                    }
                }
            }
            assert forall|i: int, j: int| 0 <= i < j < st0.entries_m().len() implies (
            #[trigger] st0.entries_m()[i]).key != (#[trigger] st0.entries_m()[j]).key by {
                if j < em_old.len() {
                    assert(em_old[i].key != em_old[j].key);
                } else if st0.entries_m().len() > em_old.len() {
                    assert(st0.entries_m()[j].key == token@);
                    assert(find_key(em_old, token@) == -1);
                    assert(em_old[i].key != token@);
                }
            }
            assert forall|i: int|
                0 <= i < st0.entries_m().len() && (#[trigger] st0.entries_m()[i]).created
                implies st0.writer_files().contains_key(
                path_of(st0.folder(), st0.entries_m()[i].key),
            ) by {
                if i < em_old.len() {
                    assert(st0.entries_m()[i] == em_old[i]);
                }
            }
            assert(st0.wf());
        }
        let key = self.entries[idx].key.clone();
        let created = self.entries[idx].created;
        let mut buf = self.entries[idx].buf.clone();
        push_bytes(&mut buf, content);
        self.entries[idx] = WriterEntry { key, buf, created };
        let ghost st1 = *self;
        proof {
            let em0 = st0.entries_m();
            let em1 = st1.entries_m();
            assert(em1 =~= em0.update(
                idx as int,
                WriterEntryM {
                    key: em0[idx as int].key,
                    buf: em0[idx as int].buf.add(content@),
                    created: em0[idx as int].created,
                },
            ));
            assert forall|i: int, j: int| 0 <= i < j < em1.len() implies (#[trigger] em1[i]).key
                != (#[trigger] em1[j]).key by {
                assert(em1[i].key == em0[i].key);
                assert(em1[j].key == em0[j].key);
            }
            assert forall|i: int|
                0 <= i < em1.len() && (#[trigger] em1[i]).created implies st1.writer_files()
                .contains_key(path_of(st1.folder(), em1[i].key)) by {
                assert(em1[i].key == em0[i].key && em1[i].created == em0[i].created);
            }
            assert(st1.wf());
            lemma_find_key_same_keys(em1, em0, token@);
            assert(find_key(em1, token@) == idx as int);
            assert(st0.buf_of(token@) == old(self).buf_of(token@));
            assert(st1.buf_of(token@) == old(self).buf_of(token@).add(content@));
            assert forall|k: Seq<u8>| true implies #[trigger] st1.buf_of(k) == (if k == token@ {
                old(self).buf_of(k).add(content@)
            } else {
                old(self).buf_of(k)
            }) && st1.is_active(k) == old(self).is_active(k) && (st1.has_key(k) <==> (old(
                self,
            ).has_key(k) || k == token@)) by {
                assert(st0.buf_of(k) == old(self).buf_of(k));
                assert(st0.has_key(k) <==> (old(self).has_key(k) || k == token@));
                assert(st0.is_active(k) == old(self).is_active(k));
                lemma_find_key_same_keys(em1, em0, k);
                lemma_find_key_props(em0, k);
                if k != token@ && find_key(em0, k) != -1 {
                    assert(find_key(em0, k) != idx as int);
                    assert(em1[find_key(em0, k)] == em0[find_key(em0, k)]);
                }
                if k == token@ {
                    assert(em1[idx as int].created == em0[idx as int].created);
                }
            }
            assert(st1.writer_state() == old(self).writer_state());
            assert(st1.folder() == old(self).folder());
        }
        if self.entries[idx].buf.len() > OUTPUT_FLUSH_THRESHOLD {
            let res = self.do_write(idx);
            match res {
                Ok(_) => {
                    proof {
                        let em1 = st1.entries_m();
                        let em2 = self.entries_m();
                        let path = path_of(old(self).folder(), token@);
                        let nb = old(self).buf_of(token@).add(content@);
                        lemma_find_key_same_keys(em2, em1, token@);
                        assert(self.buf_of(token@) == Seq::<u8>::empty());
                        assert(self.is_active(token@));
                        assert(st1.buf_of(token@) == nb);
                        assert(st1.entries_m()[idx as int].buf == nb);
                        assert(st1.entries_m()[idx as int].created == old(self).is_active(token@));
                        assert(Seq::<u8>::empty().add(nb) =~= nb);
                        assert forall|k: Seq<u8>| true implies (k != token@ ==> #[trigger] self
                            .buf_of(k) == old(self).buf_of(k) && self.is_active(k) == old(
                            self,
                        ).is_active(k)) && (self.has_key(k) <==> (old(self).has_key(k) || k
                            == token@)) by {
                            assert(st1.buf_of(k) == if k == token@ {
                                old(self).buf_of(k).add(content@)
                            } else {
                                old(self).buf_of(k)
                            });
                            assert(st1.is_active(k) == old(self).is_active(k));
                            assert(st1.has_key(k) <==> (old(self).has_key(k) || k == token@));
                            lemma_find_key_same_keys(em2, em1, k);
                            lemma_find_key_props(em1, k);
                            if k != token@ && find_key(em1, k) != -1 {
                                assert(find_key(em1, k) != idx as int);
                                assert(em2[find_key(em1, k)] == em1[find_key(em1, k)]);
                            }
                        }
                        assert forall|k: Seq<u8>| old(self).has_key(k) implies #[trigger] self
                            .has_key(k) by {
                            assert(self.buf_of(k) == self.buf_of(k));
                        }
                        assert forall|k: Seq<u8>| k != token@ implies #[trigger] self.is_active(k)
                            == old(self).is_active(k) by {
                            assert(self.buf_of(k) == self.buf_of(k));
                        }
                        assert forall|k: Seq<u8>| true implies #[trigger] self.total_of(k)
                            == if k == token@ {
                            old(self).total_of(k).add(content@)
                        } else {
                            old(self).total_of(k)
                        } by {
                            if k == token@ {
                                let persisted = if old(self).is_active(token@) {
                                    old(self).writer_files()[path]
                                } else {
                                    Seq::<u8>::empty()
                                };
                                assert(self.writer_files() == old(self).writer_files().insert(
                                    path,
                                    persisted.add(nb),
                                ));
                                assert(self.writer_files()[path] == persisted.add(nb));
                                assert(self.total_of(k) == persisted.add(nb).add(
                                    Seq::<u8>::empty(),
                                ));
                                assert(persisted.add(nb).add(Seq::<u8>::empty()) =~= persisted.add(
                                    old(self).buf_of(token@),
                                ).add(content@));
                            } else {
                                assert(st1.buf_of(k) == old(self).buf_of(k));
                                assert(st1.is_active(k) == old(self).is_active(k));
                                if self.is_active(k) {
                                    let pk = path_of(old(self).folder(), k);
                                    assert(pk != path) by {
                                        if pk == path {
                                            lemma_path_of_injective(old(self).folder(), k, token@);
                                        }
                                    }
                                    assert(self.writer_files()[pk] == old(self).writer_files()[pk]);
                                }
                            }
                        }
                    }
                    Ok(())
                },
                Err(e) => {
                    proof {
                        assert(self.entries_m() == st1.entries_m());
                        assert forall|k: Seq<u8>| true implies #[trigger] self.buf_of(k)
                            == st1.buf_of(k) && self.is_active(k) == st1.is_active(k) && (self
                            .has_key(k) <==> st1.has_key(k)) by {
                            lemma_find_key_same_keys(self.entries_m(), st1.entries_m(), k);
                        }
                        assert forall|k: Seq<u8>| true implies (k != token@ ==> #[trigger] self
                            .buf_of(k) == old(self).buf_of(k) && self.is_active(k) == old(
                            self,
                        ).is_active(k)) && (self.has_key(k) <==> (old(self).has_key(k) || k
                            == token@)) by {
                            assert(st1.buf_of(k) == if k == token@ {
                                old(self).buf_of(k).add(content@)
                            } else {
                                old(self).buf_of(k)
                            });
                            assert(st1.is_active(k) == old(self).is_active(k));
                            assert(st1.has_key(k) <==> (old(self).has_key(k) || k == token@));
                        }
                        assert(self.buf_of(token@) == st1.buf_of(token@));
                        assert(self.is_active(token@) == st1.is_active(token@));
                        assert(st1.buf_of(token@) == st1.buf_of(token@));
                        assert(st1.is_active(token@) == old(self).is_active(token@));
                        assert forall|k: Seq<u8>| old(self).has_key(k) implies #[trigger] self
                            .has_key(k) by {
                            assert(self.buf_of(k) == self.buf_of(k));
                        }
                        assert forall|k: Seq<u8>| k != token@ implies #[trigger] self.is_active(k)
                            == old(self).is_active(k) by {
                            assert(self.buf_of(k) == self.buf_of(k));
                        }
                        let ghost pt = path_of(old(self).folder(), token@);
                        assert forall|k: Seq<u8>| k != token@ implies #[trigger] self.total_of(k)
                            == old(self).total_of(k) by {
                            assert(self.buf_of(k) == st1.buf_of(k));
                            assert(st1.buf_of(k) == old(self).buf_of(k));
                            assert(st1.is_active(k) == old(self).is_active(k));
                            if self.is_active(k) {
                                let pk = path_of(old(self).folder(), k);
                                assert(pk != pt) by {
                                    if pk == pt {
                                        lemma_path_of_injective(old(self).folder(), k, token@);
                                    }
                                }
                                assert(st1.is_active(k));
                                lemma_find_key_props(st1.entries_m(), k);
                                let f = find_key(st1.entries_m(), k);
                                assert(st1.entries_m()[f].created);
                                assert(st1.entries_m()[f].key == k);
                                assert(st1.writer_files().contains_key(
                                    path_of(st1.folder(), st1.entries_m()[f].key),
                                ));
                                assert(st1.folder() == old(self).folder());
                                assert(st1.writer_files().contains_key(pk));
                                assert(self.writer_files()[pk] == st1.writer_files()[pk]);
                            }
                        }
                    }
                    Err(e)
                },
            }
        } else {
            proof {
                assert forall|k: Seq<u8>| true implies (k != token@ ==> #[trigger] self.buf_of(k)
                    == old(self).buf_of(k) && self.is_active(k) == old(self).is_active(k)) && (
                self.has_key(k) <==> (old(self).has_key(k) || k == token@)) by {
                    assert(st1.buf_of(k) == if k == token@ {
                        old(self).buf_of(k).add(content@)
                    } else {
                        old(self).buf_of(k)
                    });
                    assert(st1.is_active(k) == old(self).is_active(k));
                    assert(st1.has_key(k) <==> (old(self).has_key(k) || k == token@));
                }
                assert(self.buf_of(token@) == st1.buf_of(token@));
                assert(self.is_active(token@) == st1.is_active(token@));
                assert(st1.is_active(token@) == old(self).is_active(token@));
                assert forall|k: Seq<u8>| old(self).has_key(k) implies #[trigger] self.has_key(
                    k,
                ) by {
                    assert(self.buf_of(k) == self.buf_of(k));
                }
                assert forall|k: Seq<u8>| k != token@ implies #[trigger] self.is_active(k) == old(
                    self,
                ).is_active(k) by {
                    assert(self.buf_of(k) == self.buf_of(k));
                }
                assert forall|k: Seq<u8>| true implies #[trigger] self.total_of(k) == if k
                    == token@ {
                    old(self).total_of(k).add(content@)
                } else {
                    old(self).total_of(k)
                } by {
                    assert(st1.buf_of(k) == if k == token@ {
                        old(self).buf_of(k).add(content@)
                    } else {
                        old(self).buf_of(k)
                    });
                    assert(st1.is_active(k) == old(self).is_active(k));
                    if k == token@ {
                        assert(old(self).total_of(k).add(content@) =~= (if old(self).is_active(k) {
                            old(self).writer_files()[path_of(old(self).folder(), k)]
                        } else {
                            Seq::<u8>::empty()
                        }).add(old(self).buf_of(k).add(content@)));
                    }
                }
            }
            Ok(())
        }
    }
}


impl<T: FileWriter> CachedWriter<T> {
    /// Physically flushes every key with pending text, leaving every buffer
    /// empty; a key flushed for the first time has its destination created.
    /// With no pending data it performs no physical write at all.
    pub fn flush(&mut self) -> (r: Result<(), WriteError>)
        requires
            old(self).wf(),
        ensures
            final(self).folder() == old(self).folder(),
            forall|k: Seq<u8>| #[trigger] final(self).has_key(k) <==> old(self).has_key(k),
            (forall|i: int|
                0 <= i < old(self).entries_m().len() ==> (#[trigger] old(self).entries_m()[i]).buf.len()
                    == 0) ==> r is Ok && final(self).writer_state() == old(self).writer_state(),
            r is Err ==> forall|k: Seq<u8>|
                #[trigger] final(self).buf_of(k) == old(self).buf_of(k) || final(self).buf_of(k)
                    == Seq::<u8>::empty(),
            r is Err ==> forall|k: Seq<u8>|
                old(self).is_active(k) ==> #[trigger] final(self).is_active(k),
            r is Ok ==> {
                &&& final(self).wf()
                &&& forall|k: Seq<u8>| #[trigger] final(self).buf_of(k) == Seq::<u8>::empty()
                &&& forall|k: Seq<u8>| #[trigger] final(self).total_of(k) == old(self).total_of(k)
                &&& forall|k: Seq<u8>|
                    #[trigger] final(self).is_active(k) == (old(self).is_active(k) || old(
                        self,
                    ).buf_of(k).len() > 0)
                &&& final(self).writer_events() == old(self).writer_events() + count_nonempty(
                    old(self).entries_m(),
                )
            },
    {
        let mut i: usize = 0;
        proof {
            assert(old(self).entries_m().take(0) =~= Seq::<WriterEntryM>::empty());
        }
        while i < self.entries.len()
            invariant
                i <= self.entries_m().len(),
                self.wf(),
                self.folder() == old(self).folder(),
                self.entries_m().len() == old(self).entries_m().len(),
                forall|j: int|
                    i <= j < self.entries_m().len() ==> #[trigger] self.entries_m()[j] == old(
                        self,
                    ).entries_m()[j],
                forall|j: int|
                    0 <= j < i ==> {
                        &&& (#[trigger] self.entries_m()[j]).buf.len() == 0
                        &&& self.entries_m()[j].key == old(self).entries_m()[j].key
                        &&& self.entries_m()[j].created == (old(self).entries_m()[j].created
                            || old(self).entries_m()[j].buf.len() > 0)
                    },
                self.writer_events() == old(self).writer_events() + count_nonempty(
                    old(self).entries_m().take(i as int),
                ),
                forall|k: Seq<u8>| #[trigger] self.total_of(k) == old(self).total_of(k),
                (forall|j: int|
                    0 <= j < i ==> (#[trigger] old(self).entries_m()[j]).buf.len() == 0)
                    ==> self.writer_state() == old(self).writer_state(),
            decreases self.entries.len() - i,
        {
            let ghost stp = *self;
            proof {
                assert(old(self).entries_m().take(i + 1).drop_last() =~= old(
                    self,
                ).entries_m().take(i as int));
                assert(old(self).entries_m().take(i + 1) =~= old(self).entries_m().take(
                    i as int,
                ).push(old(self).entries_m()[i as int]));
                lemma_count_nonempty_push(
                    old(self).entries_m().take(i as int),
                    old(self).entries_m()[i as int],
                );
            }
            if self.entries[i].buf.len() > 0 {
                proof {
                    assert(stp.entries_m()[i as int] == old(self).entries_m()[i as int]);
                }
                let res = self.do_write(i);
                match res {
                    Ok(_) => {
                        proof {
                            let em1 = stp.entries_m();
                            let em2 = self.entries_m();
                            let ki = em1[i as int].key;
                            let pi = path_of(old(self).folder(), ki);
                            assert(Seq::<u8>::empty().add(em1[i as int].buf) =~= em1[i as int].buf);
                            assert forall|k: Seq<u8>| true implies #[trigger] self.total_of(k)
                                == old(self).total_of(k) by {
                                assert(stp.total_of(k) == old(self).total_of(k));
                                lemma_find_key_same_keys(em2, em1, k);
                                lemma_find_key_props(em1, k);
                                let f = find_key(em1, k);
                                if f != -1 {
                                    if f == i as int {
                                        assert(k == ki);
                                        assert(self.writer_files()[pi] == (if em1[i as int].created {
                                            stp.writer_files()[pi]
                                        } else {
                                            Seq::<u8>::empty()
                                        }).add(em1[i as int].buf));
                                        assert(self.buf_of(k) == Seq::<u8>::empty());
                                        assert(self.total_of(k) =~= stp.total_of(k));
                                    } else {
                                        assert(em2[f] == em1[f]);
                                        if self.is_active(k) {
                                            assert(pi != path_of(old(self).folder(), k)) by {
                                                if pi == path_of(old(self).folder(), k) {
                                                    lemma_path_of_injective(
                                                        old(self).folder(),
                                                        k,
                                                        ki,
                                                    );
                                                    assert(em1[f].key == em1[i as int].key);
                                                }
                                            }
                                            assert(self.writer_files()[path_of(
                                                old(self).folder(),
                                                k,
                                            )] == stp.writer_files()[path_of(
                                                old(self).folder(),
                                                k,
                                            )]);
                                        }
                                        assert(self.total_of(k) == stp.total_of(k));
                                    }
                                } else {
                                    assert(self.total_of(k) == stp.total_of(k));
                                }
                            }
                        }
                    },
                    Err(e) => {
                        proof {
                            assert(stp.entries_m()[i as int].buf.len() > 0);
                            assert forall|k: Seq<u8>| #[trigger] self.has_key(k) <==> old(
                                self,
                            ).has_key(k) by {
                                lemma_find_key_same_keys(
                                    self.entries_m(),
                                    old(self).entries_m(),
                                    k,
                                );
                            }
                            assert forall|k: Seq<u8>| true implies #[trigger] self.buf_of(k)
                                == old(self).buf_of(k) || self.buf_of(k) == Seq::<u8>::empty() by {
                                lemma_find_key_same_keys(
                                    self.entries_m(),
                                    old(self).entries_m(),
                                    k,
                                );
                                lemma_find_key_props(old(self).entries_m(), k);
                                let f = find_key(old(self).entries_m(), k);
                                if f != -1 {
                                    assert(self.entries_m()[f] == stp.entries_m()[f]);
                                    if f < i {
                                        assert(stp.entries_m()[f].buf.len() == 0);
                                        assert(self.buf_of(k) =~= Seq::<u8>::empty());
                                    } else {
                                        assert(stp.entries_m()[f] == old(self).entries_m()[f]);
                                    }
                                }
                            }
                            assert forall|k: Seq<u8>| old(self).is_active(k) implies #[trigger] self
                                .is_active(k) by {
                                lemma_find_key_same_keys(
                                    self.entries_m(),
                                    old(self).entries_m(),
                                    k,
                                );
                                lemma_find_key_props(old(self).entries_m(), k);
                                let f = find_key(old(self).entries_m(), k);
                                assert(old(self).entries_m()[f].created);
                                assert(self.entries_m()[f] == stp.entries_m()[f]);
                                if f < i {
                                    assert(stp.entries_m()[f].created == (old(
                                        self,
                                    ).entries_m()[f].created || old(self).entries_m()[f].buf.len()
                                        > 0));
                                } else {
                                    assert(stp.entries_m()[f] == old(self).entries_m()[f]);
                                }
                            }
                        }
                        return Err(e);
                    },
                }
            } else {
                proof {
                    assert(self.entries_m()[i as int] == old(self).entries_m()[i as int]);
                    assert(self.entries_m()[i as int].buf.len() == 0);
                }
            }
            i = i + 1;
        }
        proof {
            assert(old(self).entries_m().take(self.entries_m().len() as int) =~= old(
                self,
            ).entries_m());
            assert(self.writer_events() == old(self).writer_events() + count_nonempty(
                old(self).entries_m(),
            ));
            assert forall|k: Seq<u8>| #[trigger] self.has_key(k) <==> old(self).has_key(k) by {
                lemma_find_key_same_keys(self.entries_m(), old(self).entries_m(), k);
            }
            assert forall|k: Seq<u8>| true implies #[trigger] self.buf_of(k) == Seq::<u8>::empty()
                && self.is_active(k) == (old(self).is_active(k) || old(self).buf_of(k).len()
                > 0) by {
                lemma_find_key_same_keys(self.entries_m(), old(self).entries_m(), k);
                lemma_find_key_props(old(self).entries_m(), k);
                let f = find_key(old(self).entries_m(), k);
                if f != -1 {
                    assert(self.entries_m()[f].buf.len() == 0);
                    assert(self.buf_of(k) =~= Seq::<u8>::empty());
                }
            }
            assert forall|k: Seq<u8>| true implies #[trigger] self.is_active(k) == (old(
                self,
            ).is_active(k) || old(self).buf_of(k).len() > 0) by {
                assert(self.buf_of(k) == self.buf_of(k));
            }
        }
        Ok(())
    }
}

} // verus!
