//! Byte-string helpers: equality, subranges, and separator splitting.
//!
//! All textual data of the library is kept as byte vectors; a line is split
//! into fields by byte ranges, never by copying, except where an owned field
//! is needed. The splitting spec `ranges_from` is the single source of truth
//! for what a field of a separated line is.

use vstd::prelude::*;

verus! {

/// Index of the first occurrence of `b` in `s`; `s.len()` when absent.
pub open spec fn first_at(s: Seq<u8>, b: u8) -> nat
    decreases s.len(),
{
    if s.len() == 0 {
        0
    } else if s[0] == b {
        0
    } else {
        1 + first_at(s.drop_first(), b)
    }
}

pub proof fn lemma_first_at(s: Seq<u8>, b: u8)
    ensures
        first_at(s, b) <= s.len(),
        first_at(s, b) < s.len() ==> s[first_at(s, b) as int] == b,
        forall|i: int| 0 <= i < first_at(s, b) && i < s.len() ==> s[i] != b,
    decreases s.len(),
{
    if s.len() > 0 && s[0] != b {
        lemma_first_at(s.drop_first(), b);
        let fa1 = first_at(s.drop_first(), b) as int;
        assert(first_at(s, b) == 1 + fa1);
        if fa1 < s.drop_first().len() {
            assert(s.drop_first()[fa1] == s[fa1 + 1]);
        }
        assert forall|i: int| 0 <= i < first_at(s, b) && i < s.len() implies s[i] != b by {
            if i >= 1 {
                assert(s.drop_first()[i - 1] == s[i]);
            }
        }
    }
}

/// The field ranges of `line[start..]` split on `sep`: each field is the
/// half-open byte range between consecutive separators. A line always has
/// one more field than it has separators; a trailing separator yields a
/// final empty field.
pub open spec fn ranges_from(line: Seq<u8>, start: int, sep: u8) -> Seq<(usize, usize)>
    decreases line.len() - start,
{
    if start < 0 || start > line.len() {
        Seq::empty()
    } else {
        let r = first_at(line.skip(start), sep) as int;
        if r < line.len() - start {
            seq![(start as usize, (start + r) as usize)] + ranges_from(line, start + r + 1, sep)
        } else {
            seq![(start as usize, line.len() as usize)]
        }
    }
}

/// Shape of the split: at least one field, starting at `start`, ending at the
/// line's end, separated by single `sep` bytes that no field contains.
pub proof fn lemma_ranges_from(line: Seq<u8>, start: int, sep: u8)
    requires
        0 <= start <= line.len(),
        line.len() <= usize::MAX,
    ensures
        1 <= ranges_from(line, start, sep).len() <= line.len() - start + 1,
        ranges_from(line, start, sep)[0].0 == start,
        ranges_from(line, start, sep).last().1 == line.len(),
        forall|i: int| 0 <= i < ranges_from(line, start, sep).len()
            ==> start <= (#[trigger] ranges_from(line, start, sep)[i]).0
                <= ranges_from(line, start, sep)[i].1 <= line.len(),
        forall|i: int| 0 <= i < ranges_from(line, start, sep).len() - 1
            ==> (#[trigger] ranges_from(line, start, sep)[i]).1 < line.len()
                && line[ranges_from(line, start, sep)[i].1 as int] == sep
                && ranges_from(line, start, sep)[i + 1].0
                    == ranges_from(line, start, sep)[i].1 + 1,
        forall|i: int, j: int| 0 <= i < ranges_from(line, start, sep).len()
            && (#[trigger] ranges_from(line, start, sep)[i]).0 <= j
                < ranges_from(line, start, sep)[i].1
            ==> #[trigger] line[j] != sep,
    decreases line.len() - start,
{
    let tail = line.skip(start);
    lemma_first_at(tail, sep);
    assert(forall|i: int| 0 <= i < tail.len() ==> tail[i] == line[start + i]);
    let r = first_at(tail, sep) as int;
    let rs = ranges_from(line, start, sep);
    if r < line.len() - start {
        lemma_ranges_from(line, start + r + 1, sep);
        let rest = ranges_from(line, start + r + 1, sep);
        assert(rs == seq![(start as usize, (start + r) as usize)] + rest);
        assert(forall|i: int| 1 <= i < rs.len() ==> rs[i] == rest[i - 1]);
        assert(rs.last() == rest.last());
        assert(tail[r] == line[start + r]);
        assert(line[start + r] == sep);
        assert forall|j: int| start <= j < start + r implies #[trigger] line[j] != sep by {
            assert(tail[j - start] == line[j]);
        }
    } else {
        assert(rs == seq![(start as usize, line.len() as usize)]);
        assert forall|j: int| start <= j < line.len() implies #[trigger] line[j] != sep by {
            assert(tail[j - start] == line[j]);
        }
    }
}

/// First occurrence of `b` at or after `from`, with the link to `first_at`.
pub fn find_byte_from(v: &Vec<u8>, from: usize, b: u8) -> (r: usize)
    requires
        from <= v@.len(),
    ensures
        from <= r <= v@.len(),
        r - from == first_at(v@.skip(from as int), b),
        r < v@.len() ==> v@[r as int] == b,
        forall|j: int| from <= j < r ==> v@[j] != b,
{
    let ghost tail = v@.skip(from as int);
    proof {
        lemma_first_at(tail, b);
        assert(forall|i: int| 0 <= i < tail.len() ==> tail[i] == v@[from + i]);
    }
    let mut pos: usize = from;
    loop
        invariant
            from <= pos <= v@.len(),
            tail == v@.skip(from as int),
            forall|j: int| from <= j < pos ==> v@[j] != b,
        decreases v@.len() - pos,
    {
        if pos == v.len() {
            proof {
                lemma_first_at(tail, b);
                let fa = first_at(tail, b) as int;
                if fa < tail.len() {
                    assert(tail[fa] == v@[from + fa]);
                    assert(false);
                }
            }
            return pos;
        }
        if v[pos] == b {
            proof {
                lemma_first_at(tail, b);
                let fa = first_at(tail, b) as int;
                assert(tail[pos - from] == v@[pos as int]);
                if fa < pos - from {
                    assert(tail[fa] == v@[from + fa]);
                }
            }
            return pos;
        }
        pos = pos + 1;
    }
}

/// The byte ranges of the fields of `v` split on `sep`.
pub fn split_ranges(v: &Vec<u8>, sep: u8) -> (r: Vec<(usize, usize)>)
    ensures
        r@ == ranges_from(v@, 0, sep),
{
    let mut out: Vec<(usize, usize)> = Vec::new();
    let mut fs: usize = 0;
    loop
        invariant
            fs <= v@.len(),
            ranges_from(v@, 0, sep) == out@ + ranges_from(v@, fs as int, sep),
        decreases v@.len() - fs,
    {
        let e = find_byte_from(v, fs, sep);
        if e < v.len() {
            out.push((fs, e));
            proof {
                assert(ranges_from(v@, fs as int, sep)
                    == seq![(fs, e)] + ranges_from(v@, e + 1, sep));
                assert(out@ + ranges_from(v@, e + 1, sep)
                    =~= ranges_from(v@, 0, sep));
            }
            fs = e + 1;
        } else {
            out.push((fs, v.len()));
            proof {
                assert(ranges_from(v@, fs as int, sep) == seq![(fs, (v@.len() as usize))]);
                assert(out@ =~= ranges_from(v@, 0, sep));
            }
            return out;
        }
    }
}

/// Copies the byte range `[s, e)` of `v`.
pub fn copy_range(v: &Vec<u8>, s: usize, e: usize) -> (r: Vec<u8>)
    requires
        s <= e <= v@.len(),
    ensures
        r@ == v@.subrange(s as int, e as int),
{
    let mut out: Vec<u8> = Vec::new();
    let mut i: usize = s;
    while i < e
        invariant
            s <= i <= e <= v@.len(),
            out@ == v@.subrange(s as int, i as int),
        decreases e - i,
    {
        out.push(v[i]);
        proof {
            assert(out@ =~= v@.subrange(s as int, i + 1));
        }
        i = i + 1;
    }
    out
}

/// Exact equality of two byte strings.
pub fn bytes_eq(a: &Vec<u8>, b: &Vec<u8>) -> (r: bool)
    ensures
        r == (a@ == b@),
{
    if a.len() != b.len() {
        return false;
    }
    let mut i: usize = 0;
    while i < a.len()
        invariant
            i <= a@.len(),
            a@.len() == b@.len(),
            forall|j: int| 0 <= j < i ==> a@[j] == b@[j],
        decreases a@.len() - i,
    {
        if a[i] != b[i] {
            return false;
        }
        i = i + 1;
    }
    proof {
        assert(a@ =~= b@);
    }
    true
}

/// The views of a sequence of byte vectors.
pub open spec fn seq_views(s: Seq<Vec<u8>>) -> Seq<Seq<u8>> {
    s.map_values(|v: Vec<u8>| v@)
}

/// Membership of a byte string in a list of byte strings.
pub fn bytes_contains(set: &Vec<Vec<u8>>, x: &Vec<u8>) -> (r: bool)
    ensures
        r == seq_views(set@).contains(x@),
{
    let mut i: usize = 0;
    while i < set.len()
        invariant
            i <= set@.len(),
            forall|j: int| 0 <= j < i ==> seq_views(set@)[j] != x@,
        decreases set@.len() - i,
    {
        if bytes_eq(&set[i], x) {
            assert(seq_views(set@)[i as int] == x@);
            return true;
        }
        i = i + 1;
    }
    proof {
        if seq_views(set@).contains(x@) {
            let j = choose|j: int| 0 <= j < seq_views(set@).len() && seq_views(set@)[j] == x@;
            assert(seq_views(set@)[j] != x@);
        }
    }
    false
}

/// ASCII whitespace.
pub open spec fn is_ws(b: u8) -> bool {
    b == 32 || b == 9 || b == 13 || b == 10
}

/// Index of the first whitespace byte of `s`; `s.len()` when there is none.
pub open spec fn first_ws(s: Seq<u8>) -> nat
    decreases s.len(),
{
    if s.len() == 0 {
        0
    } else if is_ws(s[0]) {
        0
    } else {
        1 + first_ws(s.drop_first())
    }
}

pub proof fn lemma_first_ws(s: Seq<u8>)
    ensures
        first_ws(s) <= s.len(),
        first_ws(s) < s.len() ==> is_ws(s[first_ws(s) as int]),
        forall|i: int| 0 <= i < first_ws(s) && i < s.len() ==> !is_ws(s[i]),
    decreases s.len(),
{
    if s.len() > 0 && !is_ws(s[0]) {
        lemma_first_ws(s.drop_first());
        let fa1 = first_ws(s.drop_first()) as int;
        if fa1 < s.drop_first().len() {
            assert(s.drop_first()[fa1] == s[fa1 + 1]);
        }
        assert forall|i: int| 0 <= i < first_ws(s) && i < s.len() implies !is_ws(s[i]) by {
            if i >= 1 {
                assert(s.drop_first()[i - 1] == s[i]);
            }
        }
    }
}

/// The byte ranges of the maximal non-whitespace runs of `line[start..]`.
pub open spec fn ws_token_ranges(line: Seq<u8>, start: int) -> Seq<(usize, usize)>
    decreases line.len() - start,
{
    if start < 0 || start >= line.len() {
        Seq::empty()
    } else if is_ws(line[start]) {
        ws_token_ranges(line, start + 1)
    } else {
        let r = first_ws(line.skip(start)) as int;
        if r < 1 {
            Seq::empty()
        } else if r < line.len() - start {
            seq![(start as usize, (start + r) as usize)] + ws_token_ranges(line, start + r)
        } else {
            seq![(start as usize, line.len() as usize)]
        }
    }
}

/// Tokens are nonempty in-bound ranges that hold no whitespace.
pub proof fn lemma_ws_token_ranges(line: Seq<u8>, start: int)
    requires
        0 <= start <= line.len(),
        line.len() <= usize::MAX,
    ensures
        forall|i: int| 0 <= i < ws_token_ranges(line, start).len()
            ==> start <= (#[trigger] ws_token_ranges(line, start)[i]).0
                < ws_token_ranges(line, start)[i].1 <= line.len(),
        forall|i: int, j: int| 0 <= i < ws_token_ranges(line, start).len()
            && (#[trigger] ws_token_ranges(line, start)[i]).0 <= j
                < ws_token_ranges(line, start)[i].1
            ==> ! #[trigger] is_ws(line[j]),
    decreases line.len() - start,
{
    if start < line.len() {
        if is_ws(line[start]) {
            lemma_ws_token_ranges(line, start + 1);
            let rs = ws_token_ranges(line, start);
            assert(rs == ws_token_ranges(line, start + 1));
            assert(forall|i: int| 0 <= i < rs.len()
                ==> rs[i] == #[trigger] ws_token_ranges(line, start + 1)[i]);
        } else {
            let tail = line.skip(start);
            lemma_first_ws(tail);
            assert(forall|i: int| 0 <= i < tail.len() ==> tail[i] == line[start + i]);
            let r = first_ws(tail) as int;
            assert(tail[0] == line[start]);
            assert(r >= 1);
            let rs = ws_token_ranges(line, start);
            if r < line.len() - start {
                lemma_ws_token_ranges(line, start + r);
                let rest = ws_token_ranges(line, start + r);
                assert(rs == seq![(start as usize, (start + r) as usize)] + rest);
                assert(forall|i: int| 1 <= i < rs.len() ==> rs[i] == rest[i - 1]);
                assert forall|j: int| start <= j < start + r implies !is_ws(line[j]) by {
                    assert(tail[j - start] == line[j]);
                }
            } else {
                assert(rs == seq![(start as usize, line.len() as usize)]);
                assert forall|j: int| start <= j < line.len() implies !is_ws(line[j]) by {
                    assert(tail[j - start] == line[j]);
                }
            }
        }
    }
}

/// Whether `b` is ASCII whitespace.
pub fn is_ws_byte(b: u8) -> (r: bool)
    ensures
        r == is_ws(b),
{
    b == 32 || b == 9 || b == 13 || b == 10
}

/// First whitespace byte at or after `from`.
fn find_ws_from(v: &Vec<u8>, from: usize) -> (r: usize)
    requires
        from <= v@.len(),
    ensures
        from <= r <= v@.len(),
        r - from == first_ws(v@.skip(from as int)),
        r < v@.len() ==> is_ws(v@[r as int]),
        forall|j: int| from <= j < r ==> !is_ws(v@[j]),
{
    let ghost tail = v@.skip(from as int);
    proof {
        lemma_first_ws(tail);
        assert(forall|i: int| 0 <= i < tail.len() ==> tail[i] == v@[from + i]);
    }
    let mut pos: usize = from;
    loop
        invariant
            from <= pos <= v@.len(),
            tail == v@.skip(from as int),
            forall|j: int| from <= j < pos ==> !is_ws(v@[j]),
        decreases v@.len() - pos,
    {
        if pos == v.len() {
            proof {
                lemma_first_ws(tail);
                let fa = first_ws(tail) as int;
                if fa < tail.len() {
                    assert(tail[fa] == v@[from + fa]);
                    assert(false);
                }
            }
            return pos;
        }
        if is_ws_byte(v[pos]) {
            proof {
                lemma_first_ws(tail);
                let fa = first_ws(tail) as int;
                assert(tail[pos - from] == v@[pos as int]);
                if fa < pos - from {
                    assert(tail[fa] == v@[from + fa]);
                }
            }
            return pos;
        }
        pos = pos + 1;
    }
}

/// The whitespace-separated tokens of `v`, as byte ranges.
pub fn ws_tokens(v: &Vec<u8>) -> (r: Vec<(usize, usize)>)
    ensures
        r@ == ws_token_ranges(v@, 0),
{
    let mut out: Vec<(usize, usize)> = Vec::new();
    let mut pos: usize = 0;
    loop
        invariant
            pos <= v@.len(),
            ws_token_ranges(v@, 0) == out@ + ws_token_ranges(v@, pos as int),
        decreases v@.len() - pos,
    {
        if pos == v.len() {
            proof {
                assert(out@ =~= ws_token_ranges(v@, 0));
            }
            return out;
        }
        if is_ws_byte(v[pos]) {
            proof {
                assert(ws_token_ranges(v@, pos as int) == ws_token_ranges(v@, pos + 1));
            }
            pos = pos + 1;
        } else {
            let e = find_ws_from(v, pos);
            proof {
                assert(v@.skip(pos as int)[0] == v@[pos as int]);
                assert(e - pos >= 1);
            }
            out.push((pos, e));
            proof {
                if e < v.len() {
                    assert(ws_token_ranges(v@, pos as int)
                        == seq![(pos, e)] + ws_token_ranges(v@, e as int));
                    assert(out@ + ws_token_ranges(v@, e as int)
                        =~= ws_token_ranges(v@, 0));
                } else {
                    assert(ws_token_ranges(v@, pos as int)
                        == seq![(pos, (v@.len() as usize))]);
                    assert(out@ + ws_token_ranges(v@, e as int)
                        =~= ws_token_ranges(v@, 0));
                }
            }
            pos = e;
        }
    }
}

/// An owned copy of a byte string.
pub fn clone_bytes(v: &Vec<u8>) -> (r: Vec<u8>)
    ensures
        r@ == v@,
{
    let r = copy_range(v, 0, v.len());
    proof {
        assert(v@.subrange(0, v@.len() as int) =~= v@);
    }
    r
}

} // verus!
