use vstd::prelude::*;

use crate::bytes::find_from;
use crate::bytes::find_subseq;
use crate::bytes::parse_i32_bytes;
use crate::bytes::spec_parse_i32;
use crate::bytes::vec_subrange;
use crate::bytes::lemma_find_from_bounds;
use crate::log_parser::dot;
use crate::log_parser::dot_bytes;

verus! {

/// A path separator byte: either slash.
pub open spec fn is_sep(b: u8) -> bool {
    b == 47 || b == 92
}

/// Index of the first byte after the last path separator of `p`.
pub open spec fn file_name_start(p: Seq<u8>) -> int
    decreases p.len(),
{
    if p.len() == 0 {
        0
    } else if is_sep(p.last()) {
        p.len() as int
    } else {
        file_name_start(p.drop_last())
    }
}

pub proof fn lemma_file_name_start_range(p: Seq<u8>)
    ensures
        0 <= file_name_start(p) <= p.len(),
    decreases p.len(),
{
    if p.len() > 0 && !is_sep(p.last()) {
        lemma_file_name_start_range(p.drop_last());
    }
}

/// Index of the first byte after the last dot of a file name, or 0 when it
/// has none.
pub open spec fn ext_start(f: Seq<u8>) -> int
    decreases f.len(),
{
    if f.len() == 0 {
        0
    } else if f.last() == 46 {
        f.len() as int
    } else {
        ext_start(f.drop_last())
    }
}

pub proof fn lemma_ext_start_range(f: Seq<u8>)
    ensures
        0 <= ext_start(f) <= f.len(),
    decreases f.len(),
{
    if f.len() > 0 && f.last() != 46 {
        lemma_ext_start_range(f.drop_last());
    }
}

/// The log file extension, `uihlog`.
pub open spec fn log_ext() -> Seq<u8> {
    seq![117u8, 105u8, 104u8, 108u8, 111u8, 103u8]
}

/// Whether the path's file name carries the log extension. A name whose only
/// dot leads it, or that has no dot, has no extension at all.
pub open spec fn has_log_ext(p: Seq<u8>) -> bool {
    let f = p.skip(file_name_start(p));
    let e = ext_start(f);
    e > 1 && f.skip(e) == log_ext()
}

/// The leading segment of the file name up to its first dot.
pub open spec fn id_part(p: Seq<u8>) -> Seq<u8> {
    let f = p.skip(file_name_start(p));
    match find_from(f, dot(), 0) {
        Some(i) => f.take(i),
        None => f,
    }
}

/// The numeric id the file name's leading segment denotes, if it parses.
pub open spec fn extract_id_spec(p: Seq<u8>) -> Option<i32> {
    spec_parse_i32(id_part(p))
}

/// Whether an enumerated file takes part in a run: the log extension and a
/// parseable numeric id.
pub open spec fn keep_file(p: Seq<u8>) -> bool {
    has_log_ext(p) && extract_id_spec(p) is Some
}

/// The id a kept file sorts by.
pub open spec fn id_of(p: Seq<u8>) -> int {
    match extract_id_spec(p) {
        Some(v) => v as int,
        None => 0,
    }
}

/// Insertion of `x` after every entry whose id does not exceed its own.
pub open spec fn insert_by_id(x: Seq<u8>, s: Seq<Seq<u8>>) -> Seq<Seq<u8>>
    decreases s.len(),
{
    if s.len() == 0 {
        seq![x]
    } else if id_of(s[0]) <= id_of(x) {
        seq![s[0]].add(insert_by_id(x, s.drop_first()))
    } else {
        seq![x].add(s)
    }
}

/// The run's file list: the kept files of `files`, in ascending id order,
/// files of equal id keeping their given order.
pub open spec fn sorted_files(files: Seq<Seq<u8>>) -> Seq<Seq<u8>>
    decreases files.len(),
{
    if files.len() == 0 {
        Seq::empty()
    } else {
        let prev = sorted_files(files.drop_last());
        if keep_file(files.last()) {
            insert_by_id(files.last(), prev)
        } else {
            prev
        }
    }
}

/// Ascending id order.
pub open spec fn sorted_by_id(s: Seq<Seq<u8>>) -> bool {
    forall|i: int, j: int| 0 <= i < j < s.len() ==> id_of(s[i]) <= id_of(s[j])
}

pub open spec fn all_kept(s: Seq<Seq<u8>>) -> bool {
    forall|i: int| 0 <= i < s.len() ==> keep_file(#[trigger] s[i])
}

proof fn lemma_insert_by_id_props(x: Seq<u8>, s: Seq<Seq<u8>>)
    requires
        sorted_by_id(s),
    ensures
        sorted_by_id(insert_by_id(x, s)),
        insert_by_id(x, s).len() == s.len() + 1,
        forall|p: Seq<u8>| #[trigger] insert_by_id(x, s).contains(p) ==> (s.contains(p) || p == x),
        forall|p: Seq<u8>| #[trigger] s.contains(p) ==> insert_by_id(x, s).contains(p),
        insert_by_id(x, s).contains(x),
        keep_file(x) && all_kept(s) ==> all_kept(insert_by_id(x, s)),
    decreases s.len(),
{
    if s.len() == 0 {
        assert forall|p: Seq<u8>| #[trigger] insert_by_id(x, s).contains(p) implies (s.contains(p)
            || p == x) by {
            let r = insert_by_id(x, s);
            let w = choose|w: int| 0 <= w < r.len() && r[w] == p;
            assert(r[0] == x);
        }
        assert(insert_by_id(x, s).contains(x)) by {
            assert(insert_by_id(x, s)[0] == x);
        }
    } else if id_of(s[0]) <= id_of(x) {
        let rest = insert_by_id(x, s.drop_first());
        assert(sorted_by_id(s.drop_first())) by {
            assert(forall|i: int, j: int|
                0 <= i < j < s.drop_first().len() ==> id_of(s.drop_first()[i]) == id_of(s[i + 1])
                    && id_of(s.drop_first()[j]) == id_of(s[j + 1]));
        }
        lemma_insert_by_id_props(x, s.drop_first());
        let r = insert_by_id(x, s);
        assert(r == seq![s[0]].add(rest));
        assert forall|i: int, j: int| 0 <= i < j < r.len() implies id_of(r[i]) <= id_of(r[j]) by {
            if i == 0 {
                assert(r[0] == s[0]);
                assert(r[j] == rest[j - 1]);
                assert(rest.contains(rest[j - 1])) by {
                    assert(rest[j - 1] == rest[j - 1]);
                }
                if rest[j - 1] == x {
                    assert(id_of(s[0]) <= id_of(x));
                } else {
                    assert(s.drop_first().contains(rest[j - 1]));
                    let w = choose|w: int|
                        0 <= w < s.drop_first().len() && s.drop_first()[w] == rest[j - 1];
                    assert(s[w + 1] == rest[j - 1]);
                    assert(id_of(s[0]) <= id_of(s[w + 1]));
                }
            } else {
                assert(r[i] == rest[i - 1] && r[j] == rest[j - 1]);
            }
        }
        assert forall|p: Seq<u8>| #[trigger] r.contains(p) implies (s.contains(p) || p == x) by {
            let w = choose|w: int| 0 <= w < r.len() && r[w] == p;
            if w == 0 {
                assert(s[0] == p);
            } else {
                assert(rest[w - 1] == p);
                assert(rest.contains(p));
                if s.drop_first().contains(p) {
                    let u = choose|u: int|
                        0 <= u < s.drop_first().len() && s.drop_first()[u] == p;
                    assert(s[u + 1] == p);
                }
            }
        }
        assert forall|p: Seq<u8>| #[trigger] s.contains(p) implies r.contains(p) by {
            let w = choose|w: int| 0 <= w < s.len() && s[w] == p;
            if w == 0 {
                assert(r[0] == p);
            } else {
                assert(s.drop_first()[w - 1] == p);
                assert(s.drop_first().contains(p));
                assert(rest.contains(p));
                let u = choose|u: int| 0 <= u < rest.len() && rest[u] == p;
                assert(r[u + 1] == p);
            }
        }
        assert(r.contains(x)) by {
            assert(rest.contains(x));
            let u = choose|u: int| 0 <= u < rest.len() && rest[u] == x;
            assert(r[u + 1] == x);
        }
    } else {
        let r = insert_by_id(x, s);
        assert(r == seq![x].add(s));
        assert forall|i: int, j: int| 0 <= i < j < r.len() implies id_of(r[i]) <= id_of(r[j]) by {
            if i == 0 {
                assert(r[0] == x);
                assert(r[j] == s[j - 1]);
                if j - 1 > 0 {
                    assert(id_of(s[0]) <= id_of(s[j - 1]));
                }
            } else {
                assert(r[i] == s[i - 1] && r[j] == s[j - 1]);
            }
        }
        assert forall|p: Seq<u8>| #[trigger] r.contains(p) implies (s.contains(p) || p == x) by {
            let w = choose|w: int| 0 <= w < r.len() && r[w] == p;
            if w > 0 {
                assert(s[w - 1] == p);
            }
        }
        assert forall|p: Seq<u8>| #[trigger] s.contains(p) implies r.contains(p) by {
            let u = choose|u: int| 0 <= u < s.len() && s[u] == p;
            assert(r[u + 1] == p);
        }
        assert(r.contains(x)) by {
            assert(r[0] == x);
        }
    }
}

/// Where a scan for the insertion point stops, `insert_by_id` splits the
/// sequence.
proof fn lemma_insert_by_id_at(x: Seq<u8>, s: Seq<Seq<u8>>, j: int)
    requires
        0 <= j <= s.len(),
        forall|k: int| 0 <= k < j ==> id_of(#[trigger] s[k]) <= id_of(x),
        j < s.len() ==> id_of(s[j]) > id_of(x),
    ensures
        insert_by_id(x, s) == s.take(j).add(seq![x]).add(s.skip(j)),
    decreases s.len(),
{
    if j == 0 {
        if s.len() == 0 {
            assert(insert_by_id(x, s) =~= s.take(0).add(seq![x]).add(s.skip(0)));
        } else {
            assert(id_of(s[0]) > id_of(x));
            assert(insert_by_id(x, s) == seq![x].add(s));
            assert(seq![x].add(s) =~= s.take(0).add(seq![x]).add(s.skip(0)));
        }
    } else {
        assert(id_of(s[0]) <= id_of(x));
        let d = s.drop_first();
        assert forall|k: int| 0 <= k < j - 1 implies id_of(#[trigger] d[k]) <= id_of(x) by {
            assert(d[k] == s[k + 1]);
        }
        assert(j - 1 < d.len() ==> id_of(d[j - 1]) > id_of(x)) by {
            if j - 1 < d.len() {
                assert(d[j - 1] == s[j]);
            }
        }
        lemma_insert_by_id_at(x, d, j - 1);
        assert(insert_by_id(x, s) == seq![s[0]].add(
            d.take(j - 1).add(seq![x]).add(d.skip(j - 1)),
        ));
        assert(seq![s[0]].add(d.take(j - 1).add(seq![x]).add(d.skip(j - 1)))
            =~= s.take(j).add(seq![x]).add(s.skip(j)));
    }
}

/// The ordered list is sorted by numeric id, holds only kept files, and
/// holds exactly the kept files of the input.
pub proof fn lemma_sorted_files_props(files: Seq<Seq<u8>>)
    ensures
        sorted_by_id(sorted_files(files)),
        all_kept(sorted_files(files)),
        forall|p: Seq<u8>|
            sorted_files(files).contains(p) <==> (files.contains(p) && keep_file(p)),
    decreases files.len(),
{
    if files.len() == 0 {
    } else {
        let prev = sorted_files(files.drop_last());
        let x = files.last();
        lemma_sorted_files_props(files.drop_last());
        if keep_file(x) {
            lemma_insert_by_id_props(x, prev);
            assert forall|i: int| 0 <= i < insert_by_id(x, prev).len() implies keep_file(
                insert_by_id(x, prev)[i],
            ) by {
                let p = insert_by_id(x, prev)[i];
                assert(insert_by_id(x, prev).contains(p)) by {
                    assert(insert_by_id(x, prev)[i] == p);
                }
                if p != x {
                    assert(prev.contains(p));
                    let w = choose|w: int| 0 <= w < prev.len() && prev[w] == p;
                }
            }
        }
        assert forall|p: Seq<u8>|
            sorted_files(files).contains(p) implies (files.contains(p) && keep_file(p)) by {
            if keep_file(x) && p == x {
                assert(files[files.len() - 1] == x);
            } else if sorted_files(files).contains(p) {
                if keep_file(x) {
                    assert(prev.contains(p) || p == x);
                }
                if prev.contains(p) {
                    assert(files.drop_last().contains(p) && keep_file(p));
                    let w = choose|w: int|
                        0 <= w < files.drop_last().len() && files.drop_last()[w] == p;
                    assert(files[w] == p);
                }
            }
        }
        assert forall|p: Seq<u8>|
            (files.contains(p) && keep_file(p)) implies sorted_files(files).contains(p) by {
            if files.contains(p) && keep_file(p) {
                let w = choose|w: int| 0 <= w < files.len() && files[w] == p;
                if w < files.len() - 1 {
                    assert(files.drop_last()[w] == p);
                    assert(files.drop_last().contains(p));
                    assert(prev.contains(p));
                }
            }
        }
    }
}

/// A file whose name has no parseable leading integer never enters the
/// ordered list.
pub proof fn lemma_unparseable_id_excluded(files: Seq<Seq<u8>>, p: Seq<u8>)
    requires
        extract_id_spec(p) is None,
    ensures
        !sorted_files(files).contains(p),
{
    lemma_sorted_files_props(files);
}


/// Finds where the file name begins: just after the last separator.
fn file_name_start_idx(p: &Vec<u8>) -> (r: usize)
    ensures
        r as int == file_name_start(p@),
        r <= p.len(),
{
    let mut j: usize = p.len();
    proof {
        assert(p@.take(p@.len() as int) =~= p@);
    }
    while j > 0
        invariant
            j <= p.len(),
            file_name_start(p@) == file_name_start(p@.take(j as int)),
        decreases j,
    {
        proof {
            assert(p@.take(j as int).last() == p@[j - 1]);
        }
        let b = p[j - 1];
        if b == 47 || b == 92 {
            proof {
                lemma_file_name_start_range(p@);
            }
            return j;
        }
        proof {
            assert(p@.take(j as int).drop_last() =~= p@.take(j as int - 1));
        }
        j = j - 1;
    }
    proof {
        assert(p@.take(0) =~= Seq::<u8>::empty());
    }
    0
}

/// Finds where the extension begins within a file name: just after the last
/// dot, or 0 when there is none.
fn ext_start_idx(f: &Vec<u8>) -> (r: usize)
    ensures
        r as int == ext_start(f@),
        r <= f.len(),
{
    let mut j: usize = f.len();
    proof {
        assert(f@.take(f@.len() as int) =~= f@);
    }
    while j > 0
        invariant
            j <= f.len(),
            ext_start(f@) == ext_start(f@.take(j as int)),
        decreases j,
    {
        proof {
            assert(f@.take(j as int).last() == f@[j - 1]);
        }
        let b = f[j - 1];
        if b == 46 {
            proof {
                lemma_ext_start_range(f@);
            }
            return j;
        }
        proof {
            assert(f@.take(j as int).drop_last() =~= f@.take(j as int - 1));
        }
        j = j - 1;
    }
    proof {
        assert(f@.take(0) =~= Seq::<u8>::empty());
    }
    0
}

fn log_ext_bytes() -> (r: Vec<u8>)
    ensures
        r@ == log_ext(),
{
    let mut v: Vec<u8> = Vec::new();
    v.push(117u8);
    v.push(105u8);
    v.push(104u8);
    v.push(108u8);
    v.push(111u8);
    v.push(103u8);
    proof {
        assert(v@ =~= log_ext());
    }
    v
}

/// Whether the path's file name ends in the log extension.
fn has_log_ext_exec(p: &Vec<u8>) -> (r: bool)
    ensures
        r == has_log_ext(p@),
{
    let fstart = file_name_start_idx(p);
    let f = vec_subrange(p, fstart, p.len());
    proof {
        assert(f@ =~= p@.skip(file_name_start(p@)));
    }
    let e = ext_start_idx(&f);
    if e <= 1 {
        return false;
    }
    let ext = vec_subrange(&f, e, f.len());
    proof {
        assert(ext@ =~= f@.skip(e as int));
    }
    let target = log_ext_bytes();
    crate::bytes::bytes_eq(&ext, &target)
}

/// The ordered list of a run's input files and a cursor over it.
pub struct SortedFileList {
    files: Vec<Vec<u8>>,
    index: usize,
}

impl SortedFileList {
    /// The ordered paths.
    pub closed spec fn files(&self) -> Seq<Seq<u8>> {
        self.files.deep_view()
    }

    /// How many paths the cursor has already handed out.
    pub closed spec fn pos(&self) -> int {
        self.index as int
    }

    pub open spec fn wf(&self) -> bool {
        0 <= self.pos() <= self.files().len()
    }

    /// Orders a directory's enumerated paths for a run.
    pub fn new(files: Vec<Vec<u8>>) -> (r: SortedFileList)
        ensures
            r.wf(),
            r.files() == sorted_files(files.deep_view()),
            r.pos() == 0,
    {
        Self::do_new(files)
    }

    /// Builds the ordered list: keeps the log files with a numeric id and
    /// sorts them by it, ascending, preserving the order of equal ids.
    pub fn do_new(files: Vec<Vec<u8>>) -> (r: SortedFileList)
        ensures
            r.wf(),
            r.files() == sorted_files(files.deep_view()),
            r.pos() == 0,
    {
        SortedFileList { files: Self::sort_files(files), index: 0 }
    }

    /// Drops every file without the log extension or a parseable numeric
    /// id, and orders the rest by id, ascending.
    fn sort_files(files: Vec<Vec<u8>>) -> (r: Vec<Vec<u8>>)
        ensures
            r.deep_view() == sorted_files(files.deep_view()),
            sorted_by_id(r.deep_view()),
            all_kept(r.deep_view()),
    {
        let mut out: Vec<Vec<u8>> = Vec::new();
        let mut i: usize = 0;
        proof {
            assert(files.deep_view().take(0) =~= Seq::<Seq<u8>>::empty());
            assert(out.deep_view() =~= Seq::<Seq<u8>>::empty());
        }
        while i < files.len()
            invariant
                i <= files.len(),
                out.deep_view() == sorted_files(files.deep_view().take(i as int)),
                sorted_by_id(out.deep_view()),
                all_kept(out.deep_view()),
            decreases files.len() - i,
        {
            let ghost fv = files.deep_view();
            let f = files[i].clone();
            proof {
                assert(f@ =~= fv[i as int]) by {
                    assert(files@[i as int]@ =~= files@[i as int].deep_view());
                }
                assert(fv.take(i as int + 1).drop_last() =~= fv.take(i as int));
                assert(fv.take(i as int + 1).last() == fv[i as int]);
            }
            let has_ext = has_log_ext_exec(&f);
            let fid_opt = Self::extract_id(&f);
            match fid_opt {
                Some(fid) => {
                    if has_ext {
                        Self::insert_sorted(&mut out, f, fid);
                    }
                },
                None => {},
            }
            i = i + 1;
        }
        proof {
            assert(files.deep_view().take(files.deep_view().len() as int) =~= files.deep_view());
        }
        out
    }

    /// Inserts a kept file after every entry whose id does not exceed its own.
    fn insert_sorted(out: &mut Vec<Vec<u8>>, f: Vec<u8>, fid: i32)
        requires
            sorted_by_id(old(out).deep_view()),
            all_kept(old(out).deep_view()),
            keep_file(f@),
            extract_id_spec(f@) == Some(fid),
        ensures
            final(out).deep_view() == insert_by_id(f@, old(out).deep_view()),
            sorted_by_id(final(out).deep_view()),
            all_kept(final(out).deep_view()),
    {
        let ghost out0 = out.deep_view();
        let mut j: usize = 0;
        let mut found = false;
        while !found && j < out.len()
            invariant
                j <= out.len(),
                out.deep_view() == out0,
                out@.len() == out0.len(),
                all_kept(out0),
                extract_id_spec(f@) == Some(fid),
                forall|k: int| 0 <= k < j ==> id_of(#[trigger] out0[k]) <= id_of(f@),
                found ==> j < out0.len() && id_of(out0[j as int]) > id_of(f@),
            decreases out.len() - j + (if found { 0int } else { 1int }),
        {
            proof {
                assert(out0[j as int] == out@[j as int].deep_view());
                assert(out@[j as int]@ =~= out@[j as int].deep_view());
                assert(keep_file(out0[j as int]));
            }
            let oid = match Self::extract_id(&out[j]) {
                Some(v) => v,
                None => {
                    proof {
                        assert(false);
                    }
                    0
                },
            };
            if oid > fid {
                found = true;
            } else {
                j = j + 1;
            }
        }
        proof {
            lemma_insert_by_id_at(f@, out0, j as int);
        }
        let ghost fval = f@;
        out.insert(j, f);
        proof {
            assert(out.deep_view() =~~= out0.take(j as int).add(seq![fval]).add(
                out0.skip(j as int),
            )) by {
                assert forall|k: int| 0 <= k < out@.len() implies out.deep_view()[k]
                    == out0.take(j as int).add(seq![fval]).add(out0.skip(j as int))[k] by {
                    if k < j {
                        assert(out@[k] == old(out)@[k]);
                    } else if k == j {
                        assert(out@[k]@ == fval);
                    } else {
                        assert(out@[k] == old(out)@[k - 1]);
                    }
                }
            }
            lemma_insert_by_id_props(fval, out0);
        }
    }

    /// The numeric id of a path's file name, when its leading segment up to
    /// the first dot parses as an integer.
    pub fn extract_id(path: &Vec<u8>) -> (r: Option<i32>)
        ensures
            r == extract_id_spec(path@),
    {
        let fstart = file_name_start_idx(path);
        let f = vec_subrange(path, fstart, path.len());
        proof {
            assert(f@ =~= path@.skip(file_name_start(path@)));
        }
        let dotv = dot_bytes();
        match find_subseq(&f, &dotv, 0) {
            Some(i) => {
                proof {
                    lemma_find_from_bounds(f@, dotv@, 0);
                }
                let idp = vec_subrange(&f, 0, i);
                proof {
                    assert(idp@ =~= f@.take(i as int));
                }
                parse_i32_bytes(&idp)
            },
            None => parse_i32_bytes(&f),
        }
    }

    /// Hands out the next path in id order, advancing the cursor.
    pub fn next(&mut self) -> (r: Option<Vec<u8>>)
        requires
            old(self).wf(),
        ensures
            final(self).wf(),
            final(self).files() == old(self).files(),
            old(self).pos() < old(self).files().len() ==> {
                &&& final(self).pos() == old(self).pos() + 1
                &&& match r {
                    Some(v) => v@ == old(self).files()[old(self).pos()],
                    None => false,
                }
            },
            old(self).pos() >= old(self).files().len() ==> r is None && final(self).pos() == old(
                self,
            ).pos(),
    {
        if self.index < self.files.len() {
            self.index = self.index + 1;
            let v = self.files[self.index - 1].clone();
            proof {
                assert(v@ =~= self.files@[self.index - 1].deep_view());
            }
            Some(v)
        } else {
            None
        }
    }

    /// How many files the run holds in all.
    pub fn count(&self) -> (r: usize)
        ensures
            r as int == self.files().len(),
    {
        self.files.len()
    }
}
} // verus!
