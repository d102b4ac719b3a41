use vstd::prelude::*;

use crate::bytes::find_from;
use crate::bytes::find_subseq;
use crate::bytes::is_digit;
use crate::bytes::parse_i64_bytes;
use crate::bytes::parse_int;
use crate::bytes::spec_parse_i64;
use crate::bytes::split_bytes;
use crate::bytes::split_on;
use crate::bytes::lemma_find_from_bounds;
use crate::time_format::format_timestamp;
use crate::time_format::local_utc_offset;
use crate::time_format::ts_prefix;

verus! {

/// The two-byte header terminator: ETX then LF.
pub open spec fn header_end() -> Seq<u8> {
    seq![3u8, 10u8]
}

/// The two-byte record terminator: SOH then LF.
pub open spec fn rec_end() -> Seq<u8> {
    seq![1u8, 10u8]
}

/// The record terminator extended with the literal tag `LOG`: the
/// preferred split point for all but the last record.
pub open spec fn rec_end_log() -> Seq<u8> {
    seq![1u8, 10u8, 76u8, 79u8, 71u8]
}

/// The text `(UTC` that opens a timezone hint in the header.
pub open spec fn utc_tag() -> Seq<u8> {
    seq![40u8, 85u8, 84u8, 67u8]
}

/// The closing parenthesis of the timezone hint.
pub open spec fn close_paren() -> Seq<u8> {
    seq![41u8]
}

/// The marker for a level token of an unrecognized category.
pub open spec fn unknown_level() -> Seq<u8> {
    seq![85u8, 78u8, 75u8, 78u8, 79u8, 87u8, 78u8, 95u8, 76u8, 69u8, 86u8, 69u8, 76u8]
}

/// The marker for a level token too short to carry its category byte.
pub open spec fn invalid_level() -> Seq<u8> {
    seq![73u8, 78u8, 86u8, 65u8, 76u8, 73u8, 68u8, 95u8, 76u8, 69u8, 86u8, 69u8, 76u8]
}

/// The marker for a source field without a parenthesis.
pub open spec fn invalid_src() -> Seq<u8> {
    seq![73u8, 78u8, 86u8, 65u8, 76u8, 73u8, 68u8, 95u8, 83u8, 82u8, 67u8]
}

/// The marker for a source field without a process id.
pub open spec fn invalid_pid() -> Seq<u8> {
    seq![73u8, 78u8, 86u8, 65u8, 76u8, 73u8, 68u8, 95u8, 80u8, 73u8, 68u8]
}

/// The marker for a timestamp that does not parse or render.
pub open spec fn invalid_ts() -> Seq<u8> {
    seq![73u8, 78u8, 86u8, 65u8, 76u8, 73u8, 68u8, 95u8, 84u8, 83u8]
}

/// A single space.
pub open spec fn sp() -> Seq<u8> {
    seq![32u8]
}

/// A space and an opening bracket.
pub open spec fn sp_lb() -> Seq<u8> {
    seq![32u8, 91u8]
}

/// A closing bracket and a space.
pub open spec fn rb_sp() -> Seq<u8> {
    seq![93u8, 32u8]
}

/// A closing bracket, a space, and an opening bracket.
pub open spec fn rb_sp_lb() -> Seq<u8> {
    seq![93u8, 32u8, 91u8]
}

/// A closing bracket and the line feed that ends every rendered line.
pub open spec fn rb_nl() -> Seq<u8> {
    seq![93u8, 10u8]
}

/// A dot, as it joins a timestamp prefix with its millisecond suffix.
pub open spec fn dot() -> Seq<u8> {
    seq![46u8]
}

pub(crate) fn header_end_bytes() -> (r: Vec<u8>)
    ensures
        r@ == header_end(),
{
    let mut v: Vec<u8> = Vec::new();
    v.push(3u8);
    v.push(10u8);
    proof {
        assert(v@ =~= header_end());
    }
    v
}

pub(crate) fn rec_end_bytes() -> (r: Vec<u8>)
    ensures
        r@ == rec_end(),
{
    let mut v: Vec<u8> = Vec::new();
    v.push(1u8);
    v.push(10u8);
    proof {
        assert(v@ =~= rec_end());
    }
    v
}

pub(crate) fn rec_end_log_bytes() -> (r: Vec<u8>)
    ensures
        r@ == rec_end_log(),
{
    let mut v: Vec<u8> = Vec::new();
    v.push(1u8);
    v.push(10u8);
    v.push(76u8);
    v.push(79u8);
    v.push(71u8);
    proof {
        assert(v@ =~= rec_end_log());
    }
    v
}

pub(crate) fn utc_tag_bytes() -> (r: Vec<u8>)
    ensures
        r@ == utc_tag(),
{
    let mut v: Vec<u8> = Vec::new();
    v.push(40u8);
    v.push(85u8);
    v.push(84u8);
    v.push(67u8);
    proof {
        assert(v@ =~= utc_tag());
    }
    v
}

pub(crate) fn close_paren_bytes() -> (r: Vec<u8>)
    ensures
        r@ == close_paren(),
{
    let mut v: Vec<u8> = Vec::new();
    v.push(41u8);
    proof {
        assert(v@ =~= close_paren());
    }
    v
}

pub(crate) fn unknown_level_bytes() -> (r: Vec<u8>)
    ensures
        r@ == unknown_level(),
{
    let mut v: Vec<u8> = Vec::new();
    v.push(85u8);
    v.push(78u8);
    v.push(75u8);
    v.push(78u8);
    v.push(79u8);
    v.push(87u8);
    v.push(78u8);
    v.push(95u8);
    v.push(76u8);
    v.push(69u8);
    v.push(86u8);
    v.push(69u8);
    v.push(76u8);
    proof {
        assert(v@ =~= unknown_level());
    }
    v
}

pub(crate) fn invalid_level_bytes() -> (r: Vec<u8>)
    ensures
        r@ == invalid_level(),
{
    let mut v: Vec<u8> = Vec::new();
    v.push(73u8);
    v.push(78u8);
    v.push(86u8);
    v.push(65u8);
    v.push(76u8);
    v.push(73u8);
    v.push(68u8);
    v.push(95u8);
    v.push(76u8);
    v.push(69u8);
    v.push(86u8);
    v.push(69u8);
    v.push(76u8);
    proof {
        assert(v@ =~= invalid_level());
    }
    v
}

pub(crate) fn invalid_src_bytes() -> (r: Vec<u8>)
    ensures
        r@ == invalid_src(),
{
    let mut v: Vec<u8> = Vec::new();
    v.push(73u8);
    v.push(78u8);
    v.push(86u8);
    v.push(65u8);
    v.push(76u8);
    v.push(73u8);
    v.push(68u8);
    v.push(95u8);
    v.push(83u8);
    v.push(82u8);
    v.push(67u8);
    proof {
        assert(v@ =~= invalid_src());
    }
    v
}

pub(crate) fn invalid_pid_bytes() -> (r: Vec<u8>)
    ensures
        r@ == invalid_pid(),
{
    let mut v: Vec<u8> = Vec::new();
    v.push(73u8);
    v.push(78u8);
    v.push(86u8);
    v.push(65u8);
    v.push(76u8);
    v.push(73u8);
    v.push(68u8);
    v.push(95u8);
    v.push(80u8);
    v.push(73u8);
    v.push(68u8);
    proof {
        assert(v@ =~= invalid_pid());
    }
    v
}

pub(crate) fn invalid_ts_bytes() -> (r: Vec<u8>)
    ensures
        r@ == invalid_ts(),
{
    let mut v: Vec<u8> = Vec::new();
    v.push(73u8);
    v.push(78u8);
    v.push(86u8);
    v.push(65u8);
    v.push(76u8);
    v.push(73u8);
    v.push(68u8);
    v.push(95u8);
    v.push(84u8);
    v.push(83u8);
    proof {
        assert(v@ =~= invalid_ts());
    }
    v
}

pub(crate) fn sp_bytes() -> (r: Vec<u8>)
    ensures
        r@ == sp(),
{
    let mut v: Vec<u8> = Vec::new();
    v.push(32u8);
    proof {
        assert(v@ =~= sp());
    }
    v
}

pub(crate) fn sp_lb_bytes() -> (r: Vec<u8>)
    ensures
        r@ == sp_lb(),
{
    let mut v: Vec<u8> = Vec::new();
    v.push(32u8);
    v.push(91u8);
    proof {
        assert(v@ =~= sp_lb());
    }
    v
}

pub(crate) fn rb_sp_bytes() -> (r: Vec<u8>)
    ensures
        r@ == rb_sp(),
{
    let mut v: Vec<u8> = Vec::new();
    v.push(93u8);
    v.push(32u8);
    proof {
        assert(v@ =~= rb_sp());
    }
    v
}

pub(crate) fn rb_sp_lb_bytes() -> (r: Vec<u8>)
    ensures
        r@ == rb_sp_lb(),
{
    let mut v: Vec<u8> = Vec::new();
    v.push(93u8);
    v.push(32u8);
    v.push(91u8);
    proof {
        assert(v@ =~= rb_sp_lb());
    }
    v
}

pub(crate) fn rb_nl_bytes() -> (r: Vec<u8>)
    ensures
        r@ == rb_nl(),
{
    let mut v: Vec<u8> = Vec::new();
    v.push(93u8);
    v.push(10u8);
    proof {
        assert(v@ =~= rb_nl());
    }
    v
}

pub(crate) fn dot_bytes() -> (r: Vec<u8>)
    ensures
        r@ == dot(),
{
    let mut v: Vec<u8> = Vec::new();
    v.push(46u8);
    proof {
        assert(v@ =~= dot());
    }
    v
}

/// The opening parenthesis that ends a source key.
pub open spec fn open_paren() -> Seq<u8> {
    seq![40u8]
}

/// The colon that ends a process id.
pub open spec fn colon() -> Seq<u8> {
    seq![58u8]
}

pub(crate) fn open_paren_bytes() -> (r: Vec<u8>)
    ensures
        r@ == open_paren(),
{
    let mut v: Vec<u8> = Vec::new();
    v.push(40u8);
    proof {
        assert(v@ =~= open_paren());
    }
    v
}

pub(crate) fn colon_bytes() -> (r: Vec<u8>)
    ensures
        r@ == colon(),
{
    let mut v: Vec<u8> = Vec::new();
    v.push(58u8);
    proof {
        assert(v@ =~= colon());
    }
    v
}

/// One decoded record: the two routing keys and the rendered text line.
pub struct LogLine {
    pub src: Vec<u8>,
    pub pid: Vec<u8>,
    pub content: Vec<u8>,
}

/// The mathematical image of a decoded record.
pub ghost struct LineModel {
    pub src: Seq<u8>,
    pub pid: Seq<u8>,
    pub content: Seq<u8>,
}

impl View for LogLine {
    type V = LineModel;

    open spec fn view(&self) -> LineModel {
        LineModel { src: self.src@, pid: self.pid@, content: self.content@ }
    }
}

impl DeepView for LogLine {
    type V = LineModel;

    open spec fn deep_view(&self) -> LineModel {
        self.view()
    }
}

/// The decoder's abstract state: the machine's own offset, the offset in
/// force for timestamp rendering, and the single-slot timestamp cache.
pub ghost struct DecModel {
    pub local: int,
    pub tz: int,
    pub cache: Option<(Seq<u8>, Seq<u8>)>,
}

/// The record decoder. It carries the resolved timezone offset and a
/// single-slot cache of the most recently rendered timestamp prefix.
pub struct LogParser {
    local_offset: i32,
    tz: i32,
    cache: Option<(Vec<u8>, Vec<u8>)>,
}

impl View for LogParser {
    type V = DecModel;

    closed spec fn view(&self) -> DecModel {
        DecModel {
            local: self.local_offset as int,
            tz: self.tz as int,
            cache: match self.cache {
                Some(c) => Some((c.0@, c.1@)),
                None => None,
            },
        }
    }
}

/// Offsets a decoder may hold: what chrono accepts for a fixed offset.
pub open spec fn offset_in_range(v: int) -> bool {
    -86400 < v < 86400
}

/// A cache entry always holds the rendering of its own seconds digits at
/// the state's offset, so the cache can only speed rendering up, never
/// change it. Setting a new offset empties the cache.
pub open spec fn cache_consistent(st: DecModel) -> bool {
    match st.cache {
        Some(c) => match spec_parse_i64(c.0) {
            Some(v) => ts_prefix(v as int, st.tz) == Some(c.1),
            None => false,
        },
        None => true,
    }
}

impl LogParser {
    /// Both stored offsets stay within chrono's fixed-offset range, and the
    /// timestamp cache agrees with the offset in force.
    pub open spec fn wf(&self) -> bool {
        offset_in_range(self@.local) && offset_in_range(self@.tz) && cache_consistent(self@)
    }

    /// A fresh decoder: timezone defaults to the machine's offset and the
    /// timestamp cache is empty.
    pub fn new() -> (r: LogParser)
        ensures
            r.wf(),
            r@.tz == r@.local,
            r@.cache is None,
    {
        let local = local_utc_offset();
        LogParser { local_offset: local, tz: local, cache: None }
    }
}


/// The rendered level label: the category byte at offset 8 picks the shape,
/// as the level tokens of the log format lay it out.
pub open spec fn level_text(b: Seq<u8>) -> Seq<u8> {
    if b.len() < 9 {
        invalid_level()
    } else if b[8] == 73 || b[8] == 87 {
        if b.len() >= 12 {
            b.subrange(4, 12).add(sp())
        } else {
            invalid_level()
        }
    } else if b[8] == 69 {
        if b.len() >= 13 {
            b.subrange(4, 13)
        } else {
            invalid_level()
        }
    } else {
        unknown_level()
    }
}

/// Bytes unsafe in a file name component map to an underscore.
pub open spec fn sanitize_byte(b: u8) -> u8 {
    if b == 47 || b == 63 || b == 92 || b == 42 || b == 58 {
        95u8
    } else {
        b
    }
}

/// The output key for a record's source: the sanitized text before the first
/// parenthesis, or the invalid-source marker when there is none.
pub open spec fn src_key(b: Seq<u8>) -> Seq<u8> {
    match find_from(b, seq![40u8], 0) {
        Some(i) => Seq::new(i as nat, |j: int| sanitize_byte(b[j])),
        None => invalid_src(),
    }
}

/// The output key for a record's process: the text between the first
/// parenthesis and the next colon, or the invalid-process marker.
pub open spec fn pid_key(b: Seq<u8>) -> Seq<u8> {
    match find_from(b, seq![40u8], 0) {
        Some(i) => match find_from(b, seq![58u8], i) {
            Some(j) => b.subrange(i + 1, j),
            None => invalid_pid(),
        },
        None => invalid_pid(),
    }
}

/// The description with every line break byte replaced by a space.
pub open spec fn clean_desc(b: Seq<u8>) -> Seq<u8> {
    Seq::new(b.len(), |i: int| if b[i] == 10 || b[i] == 13 { 32u8 } else { b[i] })
}

/// The offset denoted by a well-formed timezone hint `sHH:MM` (the text
/// between `(UTC` and `)`), when it parses and lies in chrono's range.
/// A leading `+`, or an exact zero offset, counts east of UTC.
pub open spec fn tz_parse(t: Seq<u8>) -> Option<int> {
    if t.len() < 6 {
        None
    } else {
        match parse_int(t.subrange(1, 3)) {
            Some(hh) => match parse_int(t.subrange(4, 6)) {
                Some(mm) => {
                    let secs = if t[0] == 43 || (hh == 0 && mm == 0) {
                        hh * 3600 + mm * 60
                    } else {
                        -(hh * 3600 + mm * 60)
                    };
                    if offset_in_range(secs) {
                        Some(secs)
                    } else {
                        None
                    }
                },
                None => None,
            },
            None => None,
        }
    }
}

impl LogParser {
    /// Renders the level field's label.
    pub fn parse_level(buf: &Vec<u8>) -> (r: Vec<u8>)
        ensures
            r@ == level_text(buf@),
    {
        if buf.len() < 9 {
            return invalid_level_bytes();
        }
        let b8 = buf[8];
        if b8 == 73 || b8 == 87 {
            if buf.len() >= 12 {
                let mut r = crate::bytes::vec_subrange(buf, 4, 12);
                r.push(32u8);
                proof {
                    assert(r@ =~= buf@.subrange(4, 12).add(sp()));
                }
                r
            } else {
                invalid_level_bytes()
            }
        } else if b8 == 69 {
            if buf.len() >= 13 {
                crate::bytes::vec_subrange(buf, 4, 13)
            } else {
                invalid_level_bytes()
            }
        } else {
            unknown_level_bytes()
        }
    }

    /// Derives the source key from the source/process/thread field.
    pub fn parse_src(buf: &Vec<u8>) -> (r: Vec<u8>)
        ensures
            r@ == src_key(buf@),
    {
        let paren = open_paren_bytes();
        match find_subseq(buf, &paren, 0) {
            Some(i) => {
                let mut r: Vec<u8> = Vec::new();
                let mut k: usize = 0;
                proof {
                    lemma_find_from_bounds(buf@, paren@, 0);
                    assert(r@ =~= Seq::new(0nat, |j: int| sanitize_byte(buf@[j])));
                }
                while k < i
                    invariant
                        k <= i <= buf.len(),
                        r@ == Seq::new(k as nat, |j: int| sanitize_byte(buf@[j])),
                    decreases i - k,
                {
                    let b = buf[k];
                    if b == 47 || b == 63 || b == 92 || b == 42 || b == 58 {
                        r.push(95u8);
                    } else {
                        r.push(b);
                    }
                    proof {
                        assert(r@ =~= Seq::new((k + 1) as nat, |j: int| sanitize_byte(buf@[j])));
                    }
                    k = k + 1;
                }
                proof {
                    assert(src_key(buf@) == Seq::new(i as nat, |j: int| sanitize_byte(buf@[j])));
                }
                r
            },
            None => invalid_src_bytes(),
        }
    }

    /// Derives the process key from the source/process/thread field.
    pub fn parse_pid(buf: &Vec<u8>) -> (r: Vec<u8>)
        ensures
            r@ == pid_key(buf@),
    {
        let paren = open_paren_bytes();
        match find_subseq(buf, &paren, 0) {
            Some(i) => {
                let colon = colon_bytes();
                match find_subseq(buf, &colon, i) {
                    Some(j) => {
                        proof {
                            lemma_find_from_bounds(buf@, paren@, 0);
                            lemma_find_from_bounds(buf@, colon@, i as int);
                            assert(buf@[i as int] == 40u8) by {
                                assert(buf@.subrange(i as int, i + 1)[0] == buf@[i as int]);
                            }
                            assert(buf@[j as int] == 58u8) by {
                                assert(buf@.subrange(j as int, j + 1)[0] == buf@[j as int]);
                            }
                        }
                        crate::bytes::vec_subrange(buf, i + 1, j)
                    },
                    None => invalid_pid_bytes(),
                }
            },
            None => invalid_pid_bytes(),
        }
    }
}

/// Parses a timezone hint, yielding the in-range offset it denotes, if any.
fn tz_parse_bytes(t: &Vec<u8>) -> (r: Option<i32>)
    ensures
        match r {
            Some(v) => tz_parse(t@) == Some(v as int),
            None => tz_parse(t@) is None,
        },
{
    if t.len() < 6 {
        return None;
    }
    let hh_bytes = crate::bytes::vec_subrange(t, 1, 3);
    let mm_bytes = crate::bytes::vec_subrange(t, 4, 6);
    let hh = match crate::bytes::parse_i32_bytes(&hh_bytes) {
        Some(v) => v,
        None => {
            proof {
                lemma_short_parse_int_i32(t@.subrange(1, 3));
            }
            return None;
        },
    };
    let mm = match crate::bytes::parse_i32_bytes(&mm_bytes) {
        Some(v) => v,
        None => {
            proof {
                lemma_short_parse_int_i32(t@.subrange(4, 6));
            }
            return None;
        },
    };
    proof {
        lemma_short_parse_int_i32(t@.subrange(1, 3));
        lemma_short_parse_int_i32(t@.subrange(4, 6));
    }
    let base = hh * 3600 + mm * 60;
    let secs = if t[0] == 43 || (hh == 0 && mm == 0) {
        base
    } else {
        -base
    };
    if -86400 < secs && secs < 86400 {
        Some(secs)
    } else {
        None
    }
}

/// A digit string of at most two bytes denotes a value within -9 to 99,
/// so its mathematical parse and its `i32` parse agree.
proof fn lemma_short_parse_int_i32(s: Seq<u8>)
    requires
        s.len() <= 2,
    ensures
        match parse_int(s) {
            Some(v) => -9 <= v <= 99 && crate::bytes::spec_parse_i32(s) == Some(v as i32),
            None => crate::bytes::spec_parse_i32(s) is None,
        },
{
    if parse_int(s) is Some {
        let ds = if s[0] == 43 || s[0] == 45 {
            s.drop_first()
        } else {
            s
        };
        assert(crate::bytes::all_digits(ds));
        assert(ds.len() >= 1);
        if ds.len() == 1 {
            assert(crate::bytes::digits_val(ds) == crate::bytes::digits_val(ds.drop_last()) * 10 + (ds.last() - 48));
            assert(ds.drop_last().len() == 0);
            assert(0 <= crate::bytes::digits_val(ds) <= 9);
        } else {
            assert(ds.len() == 2);
            let d0 = ds.drop_last();
            assert(crate::bytes::digits_val(ds) == crate::bytes::digits_val(d0) * 10 + (ds.last() - 48));
            assert(crate::bytes::digits_val(d0) == crate::bytes::digits_val(d0.drop_last()) * 10 + (d0.last() - 48));
            assert(d0.drop_last().len() == 0);
            assert(is_digit(ds[0]) && is_digit(ds[1]));
            assert(d0.last() == ds[0]);
            assert(0 <= crate::bytes::digits_val(ds) <= 99);
        }
    }
}

impl LogParser {
    /// Parses a timezone hint; a hint that does not parse, or denotes an
    /// offset out of range, falls back to the machine's own offset.
    pub fn parse_timezone(t: &Vec<u8>) -> (r: i32)
        ensures
            match tz_parse(t@) {
                Some(v) => r as int == v,
                None => offset_in_range(r as int),
            },
            offset_in_range(r as int),
    {
        match tz_parse_bytes(t) {
            Some(v) => v,
            None => local_utc_offset(),
        }
    }
}

/// Renders one timestamp field `<seconds><3-digit-millis>` against the given
/// decoder state, yielding the text and the successor state. A cache hit on
/// the seconds digits reuses the cached prefix; a field too short, with
/// unparseable seconds, or out of the calendar's range yields the
/// invalid-timestamp marker and leaves the cache alone.
pub open spec fn ts_render(b: Seq<u8>, st: DecModel) -> (Seq<u8>, DecModel) {
    if b.len() < 3 {
        (invalid_ts(), st)
    } else {
        let secs = b.take(b.len() - 3);
        let ms = b.skip(b.len() - 3);
        match st.cache {
            Some(c) => if c.0 == secs {
                (c.1.add(dot()).add(ms), st)
            } else {
                ts_render_miss(secs, ms, st)
            },
            None => ts_render_miss(secs, ms, st),
        }
    }
}

/// Rendering a timestamp whose seconds digits are not the cached ones.
pub open spec fn ts_render_miss(secs: Seq<u8>, ms: Seq<u8>, st: DecModel) -> (Seq<u8>, DecModel) {
    match spec_parse_i64(secs) {
        Some(v) => match ts_prefix(v as int, st.tz) {
            Some(p) => (
                p.add(dot()).add(ms),
                DecModel { cache: Some((secs, p)), ..st },
            ),
            None => (invalid_ts(), st),
        },
        None => (invalid_ts(), st),
    }
}

impl LogParser {
    /// Renders one timestamp field, updating the cache as `ts_render` says.
    fn parse_timestamp(&mut self, buf: &Vec<u8>) -> (r: Vec<u8>)
        requires
            old(self).wf(),
        ensures
            final(self).wf(),
            r@ == ts_render(buf@, old(self)@).0,
            final(self)@ == ts_render(buf@, old(self)@).1,
    {
        if buf.len() < 3 {
            return invalid_ts_bytes();
        }
        let n = buf.len();
        let secs = crate::bytes::vec_subrange(buf, 0, n - 3);
        let ms = crate::bytes::vec_subrange(buf, n - 3, n);
        proof {
            assert(secs@ =~= buf@.take(n - 3));
            assert(ms@ =~= buf@.skip(n - 3));
        }
        let cached: Option<Vec<u8>> = match &self.cache {
            Some(c) => {
                if c.0 == secs {
                    proof {
                        assert(c.0@ =~= secs@);
                    }
                    Some(c.1.clone())
                } else {
                    proof {
                        if c.0@ == secs@ {
                            assert(c.0@.len() == secs@.len());
                            assert(forall|i: int| 0 <= i < c.0@.len() ==> c.0@[i] == secs@[i]);
                        }
                    }
                    None
                }
            },
            None => None,
        };
        match cached {
            Some(prefix) => {
                let mut out = prefix;
                out.push(46u8);
                crate::bytes::push_bytes(&mut out, &ms);
                proof {
                    assert(out@ =~= ts_render(buf@, old(self)@).0);
                }
                out
            },
            None => {
                match parse_i64_bytes(&secs) {
                    Some(v) => {
                        match format_timestamp(v, self.tz) {
                            Some(p) => {
                                let mut out = p.clone();
                                out.push(46u8);
                                crate::bytes::push_bytes(&mut out, &ms);
                                self.cache = Some((secs, p));
                                proof {
                                    assert(out@ =~= ts_render(buf@, old(self)@).0);
                                }
                                out
                            },
                            None => invalid_ts_bytes(),
                        }
                    },
                    None => invalid_ts_bytes(),
                }
            },
        }
    }
}

/// The decoder state after reading a header: a well-formed `(UTC...)` hint
/// sets the timezone (an unparseable hint falls back to the machine's
/// offset); a header without the complete hint leaves the state alone.
pub open spec fn header_apply(h: Seq<u8>, st: DecModel) -> DecModel {
    match find_from(h, utc_tag(), 0) {
        Some(i) => match find_from(h, close_paren(), i) {
            Some(e) => match tz_parse(h.subrange(i + 4, e)) {
                Some(v) => DecModel { tz: v, cache: None, ..st },
                None => DecModel { tz: st.local, cache: None, ..st },
            },
            None => st,
        },
        None => st,
    }
}

impl LogParser {
    /// Applies the header's timezone hint to the decoder state.
    fn parse_header(&mut self, header: &Vec<u8>)
        requires
            old(self).wf(),
        ensures
            final(self).wf(),
            final(self)@ == header_apply(header@, old(self)@),
    {
        let tag = utc_tag_bytes();
        match find_subseq(header, &tag, 0) {
            Some(i) => {
                let cp = close_paren_bytes();
                match find_subseq(header, &cp, i) {
                    Some(e) => {
                        proof {
                            lemma_find_from_bounds(header@, tag@, 0);
                            lemma_find_from_bounds(header@, cp@, i as int);
                            assert(header@.subrange(i as int, i + 4) == utc_tag());
                            assert(header@[e as int] == 41u8) by {
                                assert(header@.subrange(e as int, e + 1)[0] == header@[e as int]);
                            }
                            assert(i + 4 <= e) by {
                                if e < i + 4 {
                                    let off = e - i;
                                    assert(header@.subrange(i as int, i + 4)[off] == header@[e as int]);
                                }
                            }
                        }
                        let hint = crate::bytes::vec_subrange(header, i + 4, e);
                        match tz_parse_bytes(&hint) {
                            Some(v) => {
                                self.tz = v;
                                self.cache = None;
                            },
                            None => {
                                self.tz = self.local_offset;
                                self.cache = None;
                            },
                        }
                    },
                    None => {},
                }
            },
            None => {},
        }
    }
}

/// Index of the server-timestamp field: the last field when stray field
/// delimiters inflated the count past the fixed schema, else the ninth.
pub open spec fn server_ts_index(n: int) -> int {
    if n > 9 {
        n - 1
    } else {
        8
    }
}

/// Decodes one record against the given state: fewer than nine fields yield
/// no line; otherwise the rendered line in its fixed layout, with the server
/// timestamp rendered first and the local timestamp second.
pub open spec fn line_render(rec: Seq<u8>, st: DecModel) -> (Option<LineModel>, DecModel) {
    let fs = split_on(rec, 2);
    if fs.len() < 9 {
        (None, st)
    } else {
        let r1 = ts_render(fs[server_ts_index(fs.len() as int)], st);
        let r2 = ts_render(fs[1], r1.1);
        let content = level_text(fs[0]).add(sp()).add(r1.0).add(sp_lb()).add(r2.0).add(
            rb_sp(),
        ).add(fs[2]).add(sp()).add(clean_desc(fs[7])).add(sp_lb()).add(fs[5]).add(sp()).add(
            fs[3],
        ).add(sp()).add(fs[4]).add(rb_sp_lb()).add(fs[6]).add(rb_nl());
        (Some(LineModel { src: src_key(fs[2]), pid: pid_key(fs[2]), content }), r2.1)
    }
}

/// Replaces every line break byte of the description with a space.
fn clean_desc_bytes(v: &Vec<u8>) -> (r: Vec<u8>)
    ensures
        r@ == clean_desc(v@),
{
    let mut r: Vec<u8> = Vec::new();
    let mut k: usize = 0;
    proof {
        assert(r@ =~= clean_desc(v@).take(0));
    }
    while k < v.len()
        invariant
            k <= v.len(),
            r@ == clean_desc(v@).take(k as int),
        decreases v.len() - k,
    {
        let b = v[k];
        if b == 10 || b == 13 {
            r.push(32u8);
        } else {
            r.push(b);
        }
        proof {
            assert(r@ =~= clean_desc(v@).take(k + 1));
        }
        k = k + 1;
    }
    proof {
        assert(clean_desc(v@).take(v@.len() as int) =~= clean_desc(v@));
    }
    r
}

impl LogParser {
    /// Decodes one record into a line, or nothing for a malformed record.
    fn parse_line(&mut self, rec: &Vec<u8>) -> (r: Option<LogLine>)
        requires
            old(self).wf(),
        ensures
            final(self).wf(),
            final(self)@ == line_render(rec@, old(self)@).1,
            match r {
                Some(l) => line_render(rec@, old(self)@).0 == Some(l@),
                None => line_render(rec@, old(self)@).0 is None,
            },
    {
        let fields = split_bytes(rec, 2u8);
        let ghost fs = split_on(rec@, 2u8);
        proof {
            assert forall|i: int| 0 <= i < fields@.len() implies fields@[i]@ == fs[i] by {
                assert(fields.deep_view()[i] == fs[i]);
                assert(fields@[i]@ =~= fields@[i].deep_view());
            }
        }
        if fields.len() < 9 {
            return None;
        }
        let sidx: usize = if fields.len() > 9 {
            fields.len() - 1
        } else {
            8
        };
        proof {
            assert(sidx as int == server_ts_index(fs.len() as int));
        }
        let sts = self.parse_timestamp(&fields[sidx]);
        let lts = self.parse_timestamp(&fields[1]);
        let mut content = Self::parse_level(&fields[0]);
        let spv = sp_bytes();
        let splb = sp_lb_bytes();
        crate::bytes::push_bytes(&mut content, &spv);
        crate::bytes::push_bytes(&mut content, &sts);
        crate::bytes::push_bytes(&mut content, &splb);
        crate::bytes::push_bytes(&mut content, &lts);
        let rbsp = rb_sp_bytes();
        crate::bytes::push_bytes(&mut content, &rbsp);
        crate::bytes::push_bytes(&mut content, &fields[2]);
        crate::bytes::push_bytes(&mut content, &spv);
        let desc = clean_desc_bytes(&fields[7]);
        crate::bytes::push_bytes(&mut content, &desc);
        crate::bytes::push_bytes(&mut content, &splb);
        crate::bytes::push_bytes(&mut content, &fields[5]);
        crate::bytes::push_bytes(&mut content, &spv);
        crate::bytes::push_bytes(&mut content, &fields[3]);
        crate::bytes::push_bytes(&mut content, &spv);
        crate::bytes::push_bytes(&mut content, &fields[4]);
        let rbsplb = rb_sp_lb_bytes();
        crate::bytes::push_bytes(&mut content, &rbsplb);
        crate::bytes::push_bytes(&mut content, &fields[6]);
        let rbnl = rb_nl_bytes();
        crate::bytes::push_bytes(&mut content, &rbnl);
        let line = LogLine {
            src: Self::parse_src(&fields[2]),
            pid: Self::parse_pid(&fields[2]),
            content,
        };
        Some(line)
    }
}

/// Decodes every record of `data` from `start` on. Records end at a
/// terminator followed by the literal tag; the last record may end at a bare
/// terminator. Scanning resumes after the terminator alone, since the
/// literal belongs to the next record's prefix.
pub open spec fn run_records(data: Seq<u8>, start: int, st: DecModel) -> (Seq<LineModel>, DecModel)
    decreases data.len() - start
        via run_records_dec
{
    match find_from(data, rec_end_log(), start) {
        Some(to) => {
            let r = line_render(data.subrange(start, to), st);
            let rest = run_records(data, to + 2, r.1);
            (
                match r.0 {
                    Some(l) => seq![l].add(rest.0),
                    None => rest.0,
                },
                rest.1,
            )
        },
        None => match find_from(data, rec_end(), start) {
            Some(to) => {
                let r = line_render(data.subrange(start, to), st);
                (
                    match r.0 {
                        Some(l) => seq![l],
                        None => Seq::empty(),
                    },
                    r.1,
                )
            },
            None => (Seq::empty(), st),
        },
    }
}

#[via_fn]
proof fn run_records_dec(data: Seq<u8>, start: int, st: DecModel) {
    if 0 <= start {
        lemma_find_from_bounds(data, rec_end_log(), start);
    }
}

/// Decodes a whole buffer: everything before the first header terminator is
/// the header; a buffer without one yields no records at all.
pub open spec fn decode(data: Seq<u8>, st: DecModel) -> (Seq<LineModel>, DecModel) {
    match find_from(data, header_end(), 0) {
        Some(i) => run_records(data, i + 2, header_apply(data.take(i), st)),
        None => (Seq::empty(), st),
    }
}

impl LogParser {
    /// Decodes a buffer into its sequence of rendered lines.
    pub fn parse_sync(&mut self, content: &Vec<u8>) -> (r: Vec<LogLine>)
        requires
            old(self).wf(),
        ensures
            final(self).wf(),
            r.deep_view() == decode(content@, old(self)@).0,
            final(self)@ == decode(content@, old(self)@).1,
    {
        self.parse_buffer(content)
    }

    fn parse_buffer(&mut self, data: &Vec<u8>) -> (r: Vec<LogLine>)
        requires
            old(self).wf(),
        ensures
            final(self).wf(),
            r.deep_view() == decode(data@, old(self)@).0,
            final(self)@ == decode(data@, old(self)@).1,
    {
        let mut lines: Vec<LogLine> = Vec::new();
        let he = header_end_bytes();
        let idx = match find_subseq(data, &he, 0) {
            Some(idx) => idx,
            None => {
                proof {
                    assert(lines.deep_view() =~= decode(data@, old(self)@).0);
                }
                return lines;
            },
        };
        proof {
            lemma_find_from_bounds(data@, he@, 0);
        }
        let header = crate::bytes::vec_subrange(data, 0, idx);
        proof {
            assert(header@ =~= data@.take(idx as int));
        }
        self.parse_header(&header);
        let mut start: usize = idx + 2;
        let relog = rec_end_log_bytes();
        let re = rec_end_bytes();
        let mut done = false;
        while !done
            invariant
                old(self).wf(),
                self.wf(),
                start <= data.len(),
                !done ==> decode(data@, old(self)@).0
                    == lines.deep_view().add(run_records(data@, start as int, self@).0),
                !done ==> decode(data@, old(self)@).1
                    == run_records(data@, start as int, self@).1,
                done ==> decode(data@, old(self)@).0 == lines.deep_view(),
                done ==> decode(data@, old(self)@).1 == self@,
                relog@ == rec_end_log(),
                re@ == rec_end(),
            decreases (data.len() - start) + (if done { 0int } else { 1int }),
        {
            match find_subseq(data, &relog, start) {
                Some(to) => {
                    proof {
                        lemma_find_from_bounds(data@, relog@, start as int);
                    }
                    let rec = crate::bytes::vec_subrange(data, start, to);
                    let ghost st_before = self@;
                    let ghost lines0 = lines.deep_view();
                    let line = self.parse_line(&rec);
                    match line {
                        Some(l) => {
                            let ghost lv = l@;
                            lines.push(l);
                            proof {
                                assert(lines.deep_view() =~= lines0.push(lv));
                                assert(lines0.add(seq![lv].add(
                                    run_records(data@, to + 2, self@).0))
                                    =~= lines0.push(lv).add(run_records(data@, to + 2, self@).0));
                            }
                        },
                        None => {},
                    }
                    start = to + 2;
                },
                None => {
                    match find_subseq(data, &re, start) {
                        Some(to) => {
                            proof {
                                lemma_find_from_bounds(data@, re@, start as int);
                            }
                            let rec = crate::bytes::vec_subrange(data, start, to);
                            let ghost lines0 = lines.deep_view();
                            let line = self.parse_line(&rec);
                            match line {
                                Some(l) => {
                                    let ghost lv = l@;
                                    lines.push(l);
                                    proof {
                                        assert(lines.deep_view() =~= lines0.push(lv));
                                        assert(lines0.add(seq![lv]) =~= lines0.push(lv));
                                    }
                                },
                                None => {
                                    proof {
                                        assert(lines0.add(Seq::<LineModel>::empty()) =~= lines0);
                                    }
                                },
                            }
                        },
                        None => {
                            proof {
                                let ghost lines0 = lines.deep_view();
                                assert(lines0.add(Seq::<LineModel>::empty()) =~= lines0);
                            }
                        },
                    }
                    done = true;
                },
            }
        }
        lines
    }
}

/// The single-slot cache is an optimization, not an observable effect: from
/// any state whose cache agrees with the offset in force, rendering a
/// timestamp returns exactly what a rendering that ignores the cache would,
/// with the same successor state, whatever the call history was.
pub proof fn lemma_cache_transparent(b: Seq<u8>, st: DecModel)
    requires
        cache_consistent(st),
        b.len() >= 3,
    ensures
        ts_render(b, st) == ts_render_miss(b.take(b.len() - 3), b.skip(b.len() - 3), st),
{
    let secs = b.take(b.len() - 3);
    let ms = b.skip(b.len() - 3);
    match st.cache {
        Some(c) => {
            if c.0 == secs {
                match spec_parse_i64(secs) {
                    Some(v) => {
                        assert(ts_prefix(v as int, st.tz) == Some(c.1));
                        assert(DecModel { cache: Some((secs, c.1)), ..st } == st) by {
                            assert(Some((secs, c.1)) == st.cache);
                        }
                    },
                    None => {
                        assert(false);
                    },
                }
            }
        },
        None => {},
    }
}

/// A buffer with no header terminator decodes to no lines at all and leaves
/// the decoder state alone.
pub proof fn lemma_no_header_no_lines(data: Seq<u8>, st: DecModel)
    requires
        find_from(data, header_end(), 0) is None,
    ensures
        decode(data, st).0 == Seq::<LineModel>::empty(),
        decode(data, st).1 == st,
{
}

/// A record with fewer than nine fields yields no line and leaves the
/// decoder state alone, so the records after it decode as if it were absent.
pub proof fn lemma_short_record_skipped(data: Seq<u8>, start: int, to: int, st: DecModel)
    requires
        find_from(data, rec_end_log(), start) == Some(to),
        split_on(data.subrange(start, to), 2).len() < 9,
    ensures
        line_render(data.subrange(start, to), st).0 is None,
        run_records(data, start, st) == run_records(data, to + 2, st),
{
    let rest = run_records(data, to + 2, st);
    assert(run_records(data, start, st) == (rest.0, rest.1));
    assert((rest.0, rest.1) == rest);
}

/// A record with ten fields takes its server timestamp from the last field,
/// not from the ninth: the rendered line is built from `fs[9]` first.
pub proof fn lemma_ten_fields_server_ts(rec: Seq<u8>, st: DecModel)
    requires
        split_on(rec, 2).len() == 10,
    ensures
        ({
            let fs = split_on(rec, 2);
            let r1 = ts_render(fs[9], st);
            let r2 = ts_render(fs[1], r1.1);
            line_render(rec, st).0 == Some(
                LineModel {
                    src: src_key(fs[2]),
                    pid: pid_key(fs[2]),
                    content: level_text(fs[0]).add(sp()).add(r1.0).add(sp_lb()).add(r2.0).add(
                        rb_sp(),
                    ).add(fs[2]).add(sp()).add(clean_desc(fs[7])).add(sp_lb()).add(fs[5]).add(
                        sp(),
                    ).add(fs[3]).add(sp()).add(fs[4]).add(rb_sp_lb()).add(fs[6]).add(rb_nl()),
                },
            )
        }),
{
    assert(server_ts_index(10) == 9);
}

/// Two timestamp fields with the same integer-seconds digits render the same
/// prefix: rendered one after the other, their texts agree on everything but
/// their own three-digit millisecond suffixes.
pub proof fn lemma_same_seconds_same_prefix(b1: Seq<u8>, b2: Seq<u8>, st: DecModel)
    requires
        b1.len() >= 3,
        b2.len() >= 3,
        b2.take(b2.len() - 3) == b1.take(b1.len() - 3),
    ensures
        ({
            let r1 = ts_render(b1, st);
            let r2 = ts_render(b2, r1.1);
            r1.0.take(r1.0.len() - 3) == r2.0.take(r2.0.len() - 3)
        }),
{
    let secs = b1.take(b1.len() - 3);
    let ms1 = b1.skip(b1.len() - 3);
    let ms2 = b2.skip(b2.len() - 3);
    let r1 = ts_render(b1, st);
    let r2 = ts_render(b2, r1.1);
    assert(ms1.len() == 3);
    assert(ms2.len() == 3);
    match st.cache {
        Some(c) => {
            if c.0 == secs {
                assert(r1.0 == c.1.add(dot()).add(ms1));
                assert(r2.0 == c.1.add(dot()).add(ms2));
                assert(r1.0.take(r1.0.len() - 3) =~= c.1.add(dot()));
                assert(r2.0.take(r2.0.len() - 3) =~= c.1.add(dot()));
            } else {
                lemma_same_seconds_miss(secs, ms1, ms2, st);
            }
        },
        None => {
            lemma_same_seconds_miss(secs, ms1, ms2, st);
        },
    }
}

proof fn lemma_same_seconds_miss(secs: Seq<u8>, ms1: Seq<u8>, ms2: Seq<u8>, st: DecModel)
    requires
        ms1.len() == 3,
        ms2.len() == 3,
        match st.cache {
            Some(c) => c.0 != secs,
            None => true,
        },
    ensures
        ({
            let r1 = ts_render_miss(secs, ms1, st);
            let r2 = ts_render(secs.add(ms2), r1.1);
            r1.0.take(r1.0.len() - 3) == r2.0.take(r2.0.len() - 3)
        }),
{
    let r1 = ts_render_miss(secs, ms1, st);
    let r2 = ts_render(secs.add(ms2), r1.1);
    assert(secs.add(ms2).take(secs.add(ms2).len() - 3) =~= secs);
    assert(secs.add(ms2).skip(secs.add(ms2).len() - 3) =~= ms2);
    match spec_parse_i64(secs) {
        Some(v) => {
            match ts_prefix(v as int, st.tz) {
                Some(p) => {
                    assert(r1.1.cache == Some((secs, p)));
                    assert(r1.0 == p.add(dot()).add(ms1));
                    assert(r2.0 == p.add(dot()).add(ms2));
                    assert(r1.0.take(r1.0.len() - 3) =~= p.add(dot()));
                    assert(r2.0.take(r2.0.len() - 3) =~= p.add(dot()));
                },
                None => {
                    assert(r1.1 == st);
                    assert(r1.0 == invalid_ts());
                    assert(r2.0 == invalid_ts());
                },
            }
        },
        None => {
            assert(r1.1 == st);
            assert(r1.0 == invalid_ts());
            assert(r2.0 == invalid_ts());
        },
    }
}

/// The source key never carries a path-unsafe byte when the field has a
/// parenthesis; without one it is exactly the invalid-source marker.
pub proof fn lemma_src_key_sanitized(b: Seq<u8>)
    ensures
        find_from(b, open_paren(), 0) is Some ==> forall|j: int|
            0 <= j < src_key(b).len() ==> {
                let c = #[trigger] src_key(b)[j];
                c != 47 && c != 63 && c != 92 && c != 42 && c != 58
            },
        find_from(b, open_paren(), 0) is None ==> src_key(b) == invalid_src(),
{
}
} // verus!
