use vstd::prelude::*;

verus! {

/// True when `needle` occurs in `hay` starting at index `i`.
pub open spec fn match_at(hay: Seq<u8>, needle: Seq<u8>, i: int) -> bool {
    &&& 0 <= i
    &&& i + needle.len() <= hay.len()
    &&& hay.subrange(i, i + needle.len()) == needle
}

/// Index of the first occurrence of `needle` in `hay` at or after `from`,
/// if there is one.
pub open spec fn find_from(hay: Seq<u8>, needle: Seq<u8>, from: int) -> Option<int>
    decreases hay.len() - from,
{
    if from < 0 || from + needle.len() > hay.len() {
        None
    } else if needle.len() == 0 || match_at(hay, needle, from) {
        Some(from)
    } else {
        find_from(hay, needle, from + 1)
    }
}

/// An empty needle matches anywhere in range.
pub proof fn lemma_match_at_empty(hay: Seq<u8>, needle: Seq<u8>, i: int)
    requires
        needle.len() == 0,
        0 <= i <= hay.len(),
    ensures
        match_at(hay, needle, i),
{
    assert(hay.subrange(i, i) =~= needle);
}

/// A found index lies in range, matches, and is the first match at or after `from`.
pub proof fn lemma_find_from_bounds(hay: Seq<u8>, needle: Seq<u8>, from: int)
    requires
        0 <= from,
    ensures
        match find_from(hay, needle, from) {
            Some(i) => from <= i && i + needle.len() <= hay.len() && match_at(hay, needle, i)
                && forall|j: int| from <= j < i ==> !match_at(hay, needle, j),
            None => forall|j: int| from <= j ==> !match_at(hay, needle, j),
        },
    decreases hay.len() - from,
{
    if from < 0 || from + needle.len() > hay.len() {
    } else if needle.len() == 0 || match_at(hay, needle, from) {
        if needle.len() == 0 {
            lemma_match_at_empty(hay, needle, from);
        }
    } else {
        lemma_find_from_bounds(hay, needle, from + 1);
    }
}

/// Finds the first occurrence of `needle` in `hay` at or after `from`.
pub fn find_subseq(hay: &Vec<u8>, needle: &Vec<u8>, from: usize) -> (r: Option<usize>)
    ensures
        match r {
            Some(i) => find_from(hay@, needle@, from as int) == Some(i as int),
            None => find_from(hay@, needle@, from as int) is None,
        },
{
    if needle.len() > hay.len() {
        return None;
    }
    let mut i: usize = from;
    while i <= hay.len() - needle.len()
        invariant
            needle.len() <= hay.len(),
            find_from(hay@, needle@, from as int) == find_from(hay@, needle@, i as int),
        decreases hay.len() - i,
    {
        let mut k: usize = 0;
        let mut all_eq: bool = true;
        proof {
            assert(hay@.subrange(i as int, i as int) =~= needle@.subrange(0, 0));
        }
        while k < needle.len() && all_eq
            invariant
                i + needle.len() <= hay.len(),
                k <= needle.len(),
                all_eq <==> hay@.subrange(i as int, i + k) == needle@.subrange(0, k as int),
            decreases needle.len() - k,
        {
            let hb = hay[i + k];
            let nb = needle[k];
            proof {
                let h0 = hay@.subrange(i as int, i + k);
                let n0 = needle@.subrange(0, k as int);
                let h1 = hay@.subrange(i as int, i + k + 1);
                let n1 = needle@.subrange(0, k as int + 1);
                assert(h1.drop_last() =~= h0);
                assert(n1.drop_last() =~= n0);
                assert(h1.last() == hb);
                assert(n1.last() == nb);
                if h0 == n0 && hb == nb {
                    assert(h1 =~= n1);
                }
                if h1 == n1 {
                    assert(h0 == h1.drop_last());
                    assert(n0 == n1.drop_last());
                }
            }
            if hb != nb {
                all_eq = false;
            }
            k = k + 1;
        }
        if all_eq {
            proof {
                assert(k == needle.len());
                assert(hay@.subrange(i as int, i + needle@.len()) =~= hay@.subrange(i as int, i + k));
                assert(needle@.subrange(0, k as int) =~= needle@);
                assert(match_at(hay@, needle@, i as int));
            }
            return Some(i);
        }
        proof {
            assert(needle@.len() > 0) by {
                if needle@.len() == 0 {
                    assert(hay@.subrange(i as int, i + k) =~= needle@.subrange(0, k as int));
                }
            }
            assert(!match_at(hay@, needle@, i as int)) by {
                if match_at(hay@, needle@, i as int) {
                    assert(hay@.subrange(i as int, i + needle@.len()) == needle@);
                    assert(hay@.subrange(i as int, i + k) =~= needle@.subrange(0, k as int)) by {
                        assert forall|j: int| 0 <= j < k implies hay@[i + j] == needle@[j] by {
                            assert(hay@.subrange(i as int, i + needle@.len())[j] == needle@[j]);
                        }
                    }
                }
            }
        }
        i = i + 1;
    }
    None
}


/// Fields of `s` split on the delimiter byte `d`; splitting an empty
/// sequence yields one empty field.
pub open spec fn split_on(s: Seq<u8>, d: u8) -> Seq<Seq<u8>>
    decreases s.len(),
{
    if s.len() == 0 {
        seq![Seq::<u8>::empty()]
    } else {
        let rest = split_on(s.drop_first(), d);
        if s[0] == d {
            seq![Seq::<u8>::empty()].add(rest)
        } else {
            seq![seq![s[0]].add(rest[0])].add(rest.drop_first())
        }
    }
}

pub proof fn lemma_split_on_len(s: Seq<u8>, d: u8)
    ensures
        split_on(s, d).len() >= 1,
    decreases s.len(),
{
    if s.len() > 0 {
        lemma_split_on_len(s.drop_first(), d);
    }
}

/// The result of extending the first field of `ss` with the bytes of `p` on the left.
pub open spec fn prepend_first(p: Seq<u8>, ss: Seq<Seq<u8>>) -> Seq<Seq<u8>>
    recommends
        ss.len() >= 1,
{
    seq![p.add(ss[0])].add(ss.drop_first())
}

proof fn lemma_prepend_first_empty(ss: Seq<Seq<u8>>)
    requires
        ss.len() >= 1,
    ensures
        prepend_first(Seq::<u8>::empty(), ss) == ss,
{
    assert(Seq::<u8>::empty().add(ss[0]) =~= ss[0]);
    assert(prepend_first(Seq::<u8>::empty(), ss) =~= ss);
}

proof fn lemma_split_step(p: Seq<u8>, s: Seq<u8>, d: u8)
    requires
        s.len() > 0,
    ensures
        s[0] == d ==> prepend_first(p, split_on(s, d))
            == seq![p].add(split_on(s.drop_first(), d)),
        s[0] != d ==> prepend_first(p, split_on(s, d))
            == prepend_first(p.add(seq![s[0]]), split_on(s.drop_first(), d)),
{
    let rest = split_on(s.drop_first(), d);
    lemma_split_on_len(s.drop_first(), d);
    if s[0] == d {
        assert(prepend_first(p, split_on(s, d)) =~= seq![p].add(rest)) by {
            assert(split_on(s, d) == seq![Seq::<u8>::empty()].add(rest));
            assert(split_on(s, d)[0] == Seq::<u8>::empty());
            assert(p.add(Seq::<u8>::empty()) =~= p);
            assert(split_on(s, d).drop_first() =~= rest);
        }
    } else {
        assert(prepend_first(p, split_on(s, d))
            =~= prepend_first(p.add(seq![s[0]]), rest)) by {
            assert(split_on(s, d)[0] == seq![s[0]].add(rest[0]));
            assert(p.add(seq![s[0]].add(rest[0])) =~= p.add(seq![s[0]]).add(rest[0]));
            assert(split_on(s, d).drop_first() =~= rest.drop_first());
        }
    }
}

/// Splits `s` into fields on the delimiter byte `d`.
pub fn split_bytes(s: &Vec<u8>, d: u8) -> (r: Vec<Vec<u8>>)
    ensures
        r.deep_view() == split_on(s@, d),
        r.len() >= 1,
{
    let mut out: Vec<Vec<u8>> = Vec::new();
    let mut cur: Vec<u8> = Vec::new();
    let mut i: usize = 0;
    proof {
        assert(s@.skip(0) =~= s@);
        lemma_split_on_len(s@, d);
        lemma_prepend_first_empty(split_on(s@, d));
        assert(out.deep_view() =~= Seq::<Seq<u8>>::empty());
        assert(Seq::<Seq<u8>>::empty().add(split_on(s@, d)) =~= split_on(s@, d));
    }
    while i < s.len()
        invariant
            i <= s.len(),
            split_on(s@, d) == out.deep_view().add(
                prepend_first(cur@, split_on(s@.skip(i as int), d))),
        decreases s.len() - i,
    {
        let ghost suffix = s@.skip(i as int);
        proof {
            assert(suffix.len() > 0);
            assert(suffix[0] == s@[i as int]);
            assert(suffix.drop_first() =~= s@.skip(i as int + 1));
            lemma_split_step(cur@, suffix, d);
            lemma_split_on_len(suffix.drop_first(), d);
        }
        let b = s[i];
        if b == d {
            let ghost out0 = out.deep_view();
            let ghost cur0 = cur@;
            out.push(cur);
            cur = Vec::new();
            proof {
                assert(out.deep_view() =~~= out0.push(cur0));
                lemma_prepend_first_empty(split_on(s@.skip(i as int + 1), d));
                assert(out0.push(cur0).add(split_on(s@.skip(i as int + 1), d))
                    =~= out0.add(seq![cur0].add(split_on(s@.skip(i as int + 1), d))));
            }
        } else {
            let ghost cur0 = cur@;
            cur.push(b);
            proof {
                assert(cur@ =~= cur0.add(seq![s@[i as int]]));
            }
        }
        i = i + 1;
    }
    proof {
        assert(s@.skip(i as int) =~= Seq::<u8>::empty());
        assert(split_on(Seq::<u8>::empty(), d) == seq![Seq::<u8>::empty()]);
        assert(prepend_first(cur@, seq![Seq::<u8>::empty()]) =~= seq![cur@]) by {
            assert(cur@.add(Seq::<u8>::empty()) =~= cur@);
            assert(seq![Seq::<u8>::empty()].drop_first() =~= Seq::<Seq<u8>>::empty());
            assert(seq![cur@].add(Seq::<Seq<u8>>::empty()) =~= seq![cur@]);
        }
    }
    let ghost out0 = out.deep_view();
    let ghost cur0 = cur@;
    out.push(cur);
    proof {
        assert(out.deep_view() =~~= out0.push(cur0));
        assert(out0.add(seq![cur0]) =~= out0.push(cur0));
    }
    out
}

/// True for an ASCII decimal digit.
pub open spec fn is_digit(b: u8) -> bool {
    48 <= b <= 57
}

pub open spec fn all_digits(s: Seq<u8>) -> bool {
    forall|i: int| 0 <= i < s.len() ==> is_digit(#[trigger] s[i])
}

/// Value of a sequence of ASCII digits, most significant first.
pub open spec fn digits_val(s: Seq<u8>) -> int
    decreases s.len(),
{
    if s.len() == 0 {
        0
    } else {
        digits_val(s.drop_last()) * 10 + (s.last() - 48)
    }
}

/// The integer denoted by `s` under the usual decimal syntax with an
/// optional leading sign, or nothing when `s` is not of that shape.
pub open spec fn parse_int(s: Seq<u8>) -> Option<int> {
    if s.len() == 0 {
        None
    } else if s[0] == 43 || s[0] == 45 {
        let digits = s.drop_first();
        if digits.len() == 0 || !all_digits(digits) {
            None
        } else if s[0] == 45 {
            Some(-digits_val(digits))
        } else {
            Some(digits_val(digits))
        }
    } else {
        if !all_digits(s) {
            None
        } else {
            Some(digits_val(s))
        }
    }
}

/// What `str::parse::<i64>` accepts: a well-formed decimal number within range.
pub open spec fn spec_parse_i64(s: Seq<u8>) -> Option<i64> {
    match parse_int(s) {
        Some(v) => if i64::MIN <= v <= i64::MAX {
            Some(v as i64)
        } else {
            None
        },
        None => None,
    }
}

/// What `str::parse::<i32>` accepts: a well-formed decimal number within range.
pub open spec fn spec_parse_i32(s: Seq<u8>) -> Option<i32> {
    match parse_int(s) {
        Some(v) => if i32::MIN <= v <= i32::MAX {
            Some(v as i32)
        } else {
            None
        },
        None => None,
    }
}

proof fn lemma_digits_val_nonneg(s: Seq<u8>)
    requires
        all_digits(s),
    ensures
        digits_val(s) >= 0,
    decreases s.len(),
{
    if s.len() > 0 {
        assert(all_digits(s.drop_last()));
        lemma_digits_val_nonneg(s.drop_last());
    }
}

/// A longer digit string never denotes a smaller value.
proof fn lemma_digits_val_prefix(s: Seq<u8>, k: int)
    requires
        all_digits(s),
        0 <= k <= s.len(),
    ensures
        digits_val(s) >= digits_val(s.take(k)),
    decreases s.len() - k,
{
    if k == s.len() {
        assert(s.take(k) =~= s);
    } else {
        assert(s.take(k + 1).drop_last() =~= s.take(k));
        assert(all_digits(s.take(k + 1)));
        lemma_digits_val_nonneg(s.take(k + 1).drop_last());
        assert(digits_val(s.take(k + 1)) >= digits_val(s.take(k)));
        lemma_digits_val_prefix(s, k + 1);
    }
}

/// Parses `s` as `str::parse::<i64>` would.
pub fn parse_i64_bytes(s: &Vec<u8>) -> (r: Option<i64>)
    ensures
        r == spec_parse_i64(s@),
{
    if s.len() == 0 {
        return None;
    }
    let signed = s[0] == 43 || s[0] == 45;
    let neg = s[0] == 45;
    let start: usize = if signed { 1 } else { 0 };
    let ghost digits = if signed { s@.drop_first() } else { s@ };
    proof {
        if signed {
            assert(digits =~= s@.subrange(1, s@.len() as int));
            assert(digits =~= s@.drop_first());
        } else {
            assert(digits =~= s@.subrange(0, s@.len() as int));
        }
    }
    if s.len() == start {
        return None;
    }
    let mut acc: u64 = 0;
    let mut i: usize = start;
    proof {
        assert(digits.take(0) =~= Seq::<u8>::empty());
    }
    while i < s.len()
        invariant
            start <= i <= s.len(),
            s.len() > start,
            start == if signed { 1int } else { 0int },
            signed == (s@[0] == 43 || s@[0] == 45),
            neg == (s@[0] == 45),
            digits == s@.subrange(start as int, s@.len() as int),
            signed ==> digits == s@.drop_first(),
            !signed ==> digits == s@,
            all_digits(digits.take(i - start)),
            acc == digits_val(digits.take(i - start)),
        decreases s.len() - i,
    {
        let b = s[i];
        proof {
            assert(digits[i - start] == s@[i as int]);
        }
        if b < 48 || b > 57 {
            proof {
                assert(!is_digit(digits[i - start]));
                assert(!all_digits(digits));
            }
            return None;
        }
        let ghost pre = digits.take(i - start);
        let ghost ext = digits.take(i + 1 - start);
        proof {
            assert(ext.drop_last() =~= pre);
            assert(ext.last() == digits[i - start]);
            assert(all_digits(ext));
            assert(digits_val(ext) == digits_val(pre) * 10 + (b - 48));
        }
        let step = match acc.checked_mul(10) {
            Some(t) => t.checked_add((b - 48) as u64),
            None => None,
        };
        match step {
            Some(next) => {
                acc = next;
            },
            None => {
                // the value denoted so far already exceeds u64::MAX, hence
                // the whole string is either malformed or out of range
                proof {
                    if all_digits(digits) {
                        lemma_digits_val_prefix(digits, i + 1 - start);
                        assert(digits_val(digits) >= digits_val(ext));
                        assert(digits_val(ext) > u64::MAX);
                    }
                }
                return None;
            },
        }
        i = i + 1;
    }
    proof {
        assert(digits.take(i - start) =~= digits);
    }
    if neg {
        if acc > 9223372036854775808u64 {
            return None;
        }
        if acc == 9223372036854775808u64 {
            return Some(i64::MIN);
        }
        return Some(-((acc) as i64));
    }
    if acc > 9223372036854775807u64 {
        return None;
    }
    Some(acc as i64)
}

/// Parses `s` as `str::parse::<i32>` would.
pub fn parse_i32_bytes(s: &Vec<u8>) -> (r: Option<i32>)
    ensures
        r == spec_parse_i32(s@),
{
    match parse_i64_bytes(s) {
        Some(v) => {
            if i32::MIN as i64 <= v && v <= i32::MAX as i64 {
                Some(v as i32)
            } else {
                None
            }
        },
        None => None,
    }
}

/// Copies the byte range `[i, j)` of `v` out into a fresh vector.
pub fn vec_subrange(v: &Vec<u8>, i: usize, j: usize) -> (r: Vec<u8>)
    requires
        i <= j <= v.len(),
    ensures
        r@ == v@.subrange(i as int, j as int),
{
    let mut r: Vec<u8> = Vec::new();
    let mut k: usize = i;
    proof {
        assert(r@ =~= v@.subrange(i as int, i as int));
    }
    while k < j
        invariant
            i <= k <= j <= v.len(),
            r@ == v@.subrange(i as int, k as int),
        decreases j - k,
    {
        r.push(v[k]);
        proof {
            assert(r@ =~= v@.subrange(i as int, k as int + 1));
        }
        k = k + 1;
    }
    r
}

/// Appends the bytes of `src` to `dst`.
pub fn push_bytes(dst: &mut Vec<u8>, src: &Vec<u8>)
    ensures
        final(dst)@ == old(dst)@.add(src@),
{
    let mut k: usize = 0;
    proof {
        assert(dst@ =~= old(dst)@.add(src@.subrange(0, 0)));
    }
    while k < src.len()
        invariant
            k <= src.len(),
            dst@ == old(dst)@.add(src@.subrange(0, k as int)),
        decreases src.len() - k,
    {
        dst.push(src[k]);
        proof {
            assert(src@.subrange(0, k as int).push(src@[k as int]) =~= src@.subrange(0, k + 1));
            assert(dst@ =~= old(dst)@.add(src@.subrange(0, k + 1)));
        }
        k = k + 1;
    }
    proof {
        assert(src@.subrange(0, src@.len() as int) =~= src@);
    }
}

/// Compares two byte vectors for equality of their contents.
pub fn bytes_eq(a: &Vec<u8>, b: &Vec<u8>) -> (r: bool)
    ensures
        r == (a@ == b@),
{
    let r = a == b;
    proof {
        if r {
            assert(a@ =~= b@);
        }
        if a@ == b@ {
            assert(a@.len() == b@.len());
        }
    }
    r
}
} // verus!
