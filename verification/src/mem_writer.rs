use vstd::prelude::*;

use crate::bytes::bytes_eq;
use crate::bytes::push_bytes;
use crate::cached_writer::FileWriter;
use crate::cached_writer::WriteError;

verus! {

/// One destination held in memory: its path, contents, and how many
/// physical writes have reached it.
struct MemFile {
    path: Vec<u8>,
    content: Vec<u8>,
    times: u64,
}

/// The mathematical image of one in-memory destination.
pub ghost struct MemFileM {
    pub path: Seq<u8>,
    pub content: Seq<u8>,
    pub times: u64,
}

/// First index holding `p`, or -1.
pub open spec fn find_path(s: Seq<MemFileM>, p: Seq<u8>) -> int
    decreases s.len(),
{
    if s.len() == 0 {
        -1
    } else if s[0].path == p {
        0
    } else {
        let r = find_path(s.drop_first(), p);
        if r == -1 {
            -1
        } else {
            r + 1
        }
    }
}

pub proof fn lemma_find_path_props(s: Seq<MemFileM>, p: Seq<u8>)
    ensures
        find_path(s, p) == -1 ==> forall|i: int| 0 <= i < s.len() ==> (#[trigger] s[i]).path != p,
        find_path(s, p) != -1 ==> 0 <= find_path(s, p) < s.len() && s[find_path(s, p)].path == p
            && forall|i: int| 0 <= i < find_path(s, p) ==> (#[trigger] s[i]).path != p,
    decreases s.len(),
{
    if s.len() > 0 && s[0].path != p {
        lemma_find_path_props(s.drop_first(), p);
        assert(forall|i: int| 1 <= i < s.len() ==> #[trigger] s[i] == s.drop_first()[i - 1]);
    }
}

pub proof fn lemma_find_path_same_paths(s1: Seq<MemFileM>, s2: Seq<MemFileM>, p: Seq<u8>)
    requires
        s1.len() == s2.len(),
        forall|i: int| 0 <= i < s1.len() ==> (#[trigger] s1[i]).path == (#[trigger] s2[i]).path,
    ensures
        find_path(s1, p) == find_path(s2, p),
    decreases s1.len(),
{
    if s1.len() > 0 {
        assert(forall|i: int|
            0 <= i < s1.drop_first().len() ==> (#[trigger] s1.drop_first()[i]).path == s1[i
                + 1].path && (#[trigger] s2.drop_first()[i]).path == s2[i + 1].path);
        lemma_find_path_same_paths(s1.drop_first(), s2.drop_first(), p);
    }
}

pub proof fn lemma_find_path_push(s: Seq<MemFileM>, e: MemFileM, p: Seq<u8>)
    ensures
        find_path(s, p) != -1 ==> find_path(s.push(e), p) == find_path(s, p),
        find_path(s, p) == -1 && e.path == p ==> find_path(s.push(e), p) == s.len() as int,
        find_path(s, p) == -1 && e.path != p ==> find_path(s.push(e), p) == -1,
    decreases s.len(),
{
    if s.len() == 0 {
        assert(s.push(e)[0] == e);
        assert(s.push(e).drop_first() =~= Seq::<MemFileM>::empty());
        assert(find_path(Seq::<MemFileM>::empty(), p) == -1);
        assert(find_path(s, p) == -1);
        if e.path == p {
            assert(find_path(s.push(e), p) == 0);
        } else {
            assert(find_path(s.push(e).drop_first(), p) == -1);
            assert(find_path(s.push(e), p) == -1);
        }
    } else {
        assert(s.push(e)[0] == s[0]);
        assert(s.push(e).drop_first() =~= s.drop_first().push(e));
        lemma_find_path_push(s.drop_first(), e, p);
        assert(find_path(s.push(e).drop_first(), p) == find_path(s.drop_first().push(e), p));
        if s[0].path != p {
            let m = find_path(s.drop_first(), p);
            if m != -1 {
                lemma_find_path_props(s.drop_first(), p);
                assert(m >= 0);
                assert(find_path(s, p) == m + 1);
            } else if e.path == p {
                assert(find_path(s.drop_first().push(e), p) == s.drop_first().len());
                assert(find_path(s.push(e), p) == s.len());
                assert(find_path(s, p) == -1);
            } else {
                assert(find_path(s.push(e), p) == -1);
                assert(find_path(s, p) == -1);
            }
        }
    }
}

/// The store an entry sequence denotes.
pub open spec fn mem_files_map(s: Seq<MemFileM>) -> Map<Seq<u8>, Seq<u8>> {
    Map::new(|p: Seq<u8>| find_path(s, p) != -1, |p: Seq<u8>| s[find_path(s, p)].content)
}

/// An in-memory persistence capability: it records every destination's
/// contents and write count, for runs that must not touch a file system.
pub struct MemFileWriter {
    entries: Vec<MemFile>,
    events: Ghost<nat>,
}

impl MemFileWriter {
    /// The recorded destinations.
    pub closed spec fn entries_m(&self) -> Seq<MemFileM> {
        Seq::new(
            self.entries@.len(),
            |i: int|
                MemFileM {
                    path: self.entries@[i].path@,
                    content: self.entries@[i].content@,
                    times: self.entries@[i].times,
                },
        )
    }

    /// How many physical writes have reached a destination; 0 before its
    /// first.
    pub open spec fn times_of(&self, p: Seq<u8>) -> u64 {
        let i = find_path(self.entries_m(), p);
        if i == -1 {
            0
        } else {
            self.entries_m()[i].times
        }
    }

    /// An empty store.
    pub fn new() -> (r: MemFileWriter)
        ensures
            r.inv(),
            r.files() == Map::<Seq<u8>, Seq<u8>>::empty(),
            r.events() == 0,
    {
        let r = MemFileWriter { entries: Vec::new(), events: Ghost(0nat) };
        proof {
            assert(r.entries_m() =~= Seq::<MemFileM>::empty());
            assert(r.files() =~= Map::<Seq<u8>, Seq<u8>>::empty());
        }
        r
    }

    /// The index of a destination, if it exists.
    fn find_file(&self, path: &Vec<u8>) -> (r: Option<usize>)
        ensures
            match r {
                Some(i) => i < self.entries_m().len() && find_path(self.entries_m(), path@)
                    == i as int,
                None => find_path(self.entries_m(), path@) == -1,
            },
    {
        let mut j: usize = 0;
        while j < self.entries.len()
            invariant
                j <= self.entries_m().len(),
                forall|i: int| 0 <= i < j ==> (#[trigger] self.entries_m()[i]).path != path@,
            decreases self.entries.len() - j,
        {
            if bytes_eq(&self.entries[j].path, path) {
                proof {
                    assert(self.entries_m()[j as int].path == path@);
                    lemma_find_path_props(self.entries_m(), path@);
                    let f = find_path(self.entries_m(), path@);
                    assert(f != -1) by {
                        if f == -1 {
                            assert(self.entries_m()[j as int].path != path@);
                        }
                    }
                    assert(f == j as int) by {
                        if f < j {
                            assert(self.entries_m()[f].path == path@);
                        }
                        if f > j {
                            assert(self.entries_m()[j as int].path != path@);
                        }
                    }
                }
                return Some(j);
            }
            j = j + 1;
        }
        proof {
            lemma_find_path_props(self.entries_m(), path@);
            let f = find_path(self.entries_m(), path@);
            if f != -1 {
                assert(self.entries_m()[f].path != path@);
            }
        }
        None
    }

    /// Whether a destination has ever been physically written.
    pub fn file_exists(&self, path: &Vec<u8>) -> (r: bool)
        ensures
            r == self.files().contains_key(path@),
    {
        match self.find_file(path) {
            Some(_) => true,
            None => false,
        }
    }

    /// The bytes a destination holds.
    pub fn get_file_length(&self, path: &Vec<u8>) -> (r: usize)
        requires
            self.files().contains_key(path@),
        ensures
            r == self.files()[path@].len(),
    {
        match self.find_file(path) {
            Some(i) => self.entries[i].content.len(),
            None => {
                proof {
                    assert(false);
                }
                0
            },
        }
    }

    /// The bytes a destination holds, copied out.
    pub fn get_file_content(&self, path: &Vec<u8>) -> (r: Vec<u8>)
        requires
            self.files().contains_key(path@),
        ensures
            r@ == self.files()[path@],
    {
        match self.find_file(path) {
            Some(i) => {
                let c = self.entries[i].content.clone();
                proof {
                    assert(c@ =~= self.files()[path@]);
                }
                c
            },
            None => {
                proof {
                    assert(false);
                }
                Vec::new()
            },
        }
    }

    /// How many physical writes have reached a destination.
    pub fn get_file_written_times(&self, path: &Vec<u8>) -> (r: u64)
        requires
            self.files().contains_key(path@),
        ensures
            r == self.times_of(path@),
    {
        match self.find_file(path) {
            Some(i) => self.entries[i].times,
            None => {
                proof {
                    assert(false);
                }
                0
            },
        }
    }
}

impl FileWriter for MemFileWriter {
    /// Paths are unique.
    closed spec fn inv(&self) -> bool {
        forall|i: int, j: int|
            0 <= i < j < self.entries_m().len() ==> (#[trigger] self.entries_m()[i]).path != (
            #[trigger] self.entries_m()[j]).path
    }

    closed spec fn files(&self) -> Map<Seq<u8>, Seq<u8>> {
        mem_files_map(self.entries_m())
    }

    closed spec fn events(&self) -> nat {
        self.events@
    }

    fn write(&mut self, path: &Vec<u8>, content: &Vec<u8>, append: bool) -> (r: Result<
        (),
        WriteError,
    >)
        ensures
            r is Ok <==> (append ==> old(self).files().contains_key(path@)),
            r is Err ==> final(self).files() == old(self).files() && final(self).events() == old(
                self,
            ).events(),
    {
        let ghost em0 = self.entries_m();
        match self.find_file(path) {
            Some(i) => {
                let old_times = self.entries[i].times;
                let new_times: u64 = if old_times < 18446744073709551615u64 {
                    old_times + 1
                } else {
                    old_times
                };
                let path_copy = self.entries[i].path.clone();
                let mut new_content: Vec<u8>;
                if append {
                    new_content = self.entries[i].content.clone();
                    push_bytes(&mut new_content, content);
                } else {
                    new_content = content.clone();
                }
                let ghost newm = MemFileM {
                    path: em0[i as int].path,
                    content: if append {
                        em0[i as int].content.add(content@)
                    } else {
                        content@
                    },
                    times: new_times,
                };
                self.entries[i] = MemFile { path: path_copy, content: new_content, times: new_times };
                proof {
                    self.events@ = self.events@ + 1;
                    let em1 = self.entries_m();
                    assert(em1 =~= em0.update(i as int, newm));
                    assert forall|a: int, b: int| 0 <= a < b < em1.len() implies (
                    #[trigger] em1[a]).path != (#[trigger] em1[b]).path by {
                        assert(em1[a].path == em0[a].path);
                        assert(em1[b].path == em0[b].path);
                    }
                    assert(mem_files_map(em1) =~= mem_files_map(em0).insert(path@, newm.content))
                        by {
                        assert forall|p: Seq<u8>| true implies find_path(em1, p) == find_path(
                            em0,
                            p,
                        ) by {
                            lemma_find_path_same_paths(em1, em0, p);
                        }
                        assert forall|p: Seq<u8>|
                            mem_files_map(em1).dom().contains(p) implies mem_files_map(em1)[p]
                            == mem_files_map(em0).insert(path@, newm.content)[p] by {
                            lemma_find_path_props(em0, p);
                            lemma_find_path_props(em0, path@);
                            if p == path@ {
                                assert(find_path(em1, p) == i as int);
                            } else {
                                assert(find_path(em0, p) != i as int);
                                assert(em1[find_path(em0, p)] == em0[find_path(em0, p)]);
                            }
                        }
                    }
                    assert(em0[i as int].content == old(self).files()[path@]);
                }
                Ok(())
            },
            None => {
                if append {
                    return Err(WriteError);
                }
                let ghost newm = MemFileM { path: path@, content: content@, times: 1u64 };
                self.entries.push(
                    MemFile { path: path.clone(), content: content.clone(), times: 1u64 },
                );
                proof {
                    self.events@ = self.events@ + 1;
                    let em1 = self.entries_m();
                    assert(em1 =~= em0.push(newm));
                    lemma_find_path_props(em0, path@);
                    assert forall|a: int, b: int| 0 <= a < b < em1.len() implies (
                    #[trigger] em1[a]).path != (#[trigger] em1[b]).path by {
                        if b < em0.len() {
                            assert(em0[a].path != em0[b].path);
                        } else {
                            assert(em1[b].path == path@);
                            assert(em0[a].path != path@);
                        }
                    }
                    assert(mem_files_map(em1) =~= mem_files_map(em0).insert(path@, content@)) by {
                        assert forall|p: Seq<u8>| true implies (find_path(em1, p) != -1 <==> (
                        find_path(em0, p) != -1 || p == path@)) && (find_path(em1, p) != -1
                            ==> em1[find_path(em1, p)].content == (if p == path@ {
                            content@
                        } else {
                            em0[find_path(em0, p)].content
                        })) by {
                            lemma_find_path_push(em0, newm, p);
                            lemma_find_path_props(em0, p);
                            if find_path(em0, p) != -1 {
                                assert(em0[find_path(em0, p)].path == p);
                                assert(p != path@);
                                assert(em1[find_path(em0, p)] == em0[find_path(em0, p)]);
                            } else if p == path@ {
                                assert(find_path(em1, p) == em0.len());
                                assert(em1[em0.len() as int] == newm);
                            }
                        }
                    }
                }
                Ok(())
            },
        }
    }
}

} // verus!
