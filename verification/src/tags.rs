//! The tag block of a TLG container: `keylen:key=valuelen:value,` for each
//! tag, lengths in decimal bytes.

use vstd::prelude::*;
use crate::tlg_type::TlgError;
use crate::container::append_slice;

verus! {

/// Whether `bytes` are well-formed UTF-8: the result of
/// `std::str::from_utf8(bytes).is_ok()`.
pub uninterp spec fn is_utf8(bytes: Seq<u8>) -> bool;

/// Whether `bytes` are well-formed UTF-8.
///
/// Calls `std::str::from_utf8`; the contract only names its verdict
/// (`is_utf8`), which depends on the bytes alone.
#[verifier::external_body]
fn utf8_ok(bytes: &[u8]) -> (r: bool)
    ensures
        r == is_utf8(bytes@),
{
    std::str::from_utf8(bytes).is_ok()
}

/// Tags as byte strings.
pub open spec fn tag_seq(tags: Seq<(Vec<u8>, Vec<u8>)>) -> Seq<(Seq<u8>, Seq<u8>)> {
    Seq::new(tags.len(), |i: int| (tags[i].0@, tags[i].1@))
}

/// The decimal digits of `n`.
pub open spec fn decimal(n: nat) -> Seq<u8>
    decreases n,
{
    if n < 10 {
        seq![(48 + n) as u8]
    } else {
        decimal(n / 10).push((48 + n % 10) as u8)
    }
}

/// One tag in the tag block.
pub open spec fn tag_entry(k: Seq<u8>, v: Seq<u8>) -> Seq<u8> {
    decimal(k.len()) + seq![58u8] + k + seq![61u8] + decimal(v.len()) + seq![58u8] + v + seq![44u8]
}

/// The tag block of `tags`, in order.
pub open spec fn tags_bytes(tags: Seq<(Seq<u8>, Seq<u8>)>) -> Seq<u8>
    decreases tags.len(),
{
    if tags.len() == 0 {
        Seq::empty()
    } else {
        tags_bytes(tags.drop_last()) + tag_entry(tags.last().0, tags.last().1)
    }
}

/// Appends the decimal digits of `n`.
pub fn push_decimal(out: &mut Vec<u8>, n: usize)
    ensures
        final(out)@ == old(out)@ + decimal(n as nat),
    decreases n,
{
    if n < 10 {
        out.push((48 + n) as u8);
        assert(final(out)@ =~= old(out)@ + decimal(n as nat));
    } else {
        push_decimal(out, n / 10);
        out.push((48 + n % 10) as u8);
        assert(final(out)@ =~= old(out)@ + decimal(n as nat));
    }
}

/// Whether the tag block of `tags` is well-formed UTF-8, as a reader of
/// the block requires (see `is_utf8`).
pub fn tags_are_utf8(tags: &Vec<(Vec<u8>, Vec<u8>)>) -> (r: bool)
    ensures
        r == is_utf8(tags_bytes(tag_seq(tags@))),
{
    let data = tags_to_data(tags);
    utf8_ok(data.as_slice())
}

/// The tag block of `tags`.
pub fn tags_to_data(tags: &Vec<(Vec<u8>, Vec<u8>)>) -> (out: Vec<u8>)
    ensures
        out@ == tags_bytes(tag_seq(tags@)),
{
    let mut out: Vec<u8> = Vec::new();
    let mut i: usize = 0;
    proof {
        assert(tag_seq(tags@.take(0)) =~= Seq::<(Seq<u8>, Seq<u8>)>::empty());
    }
    while i < tags.len()
        invariant
            i <= tags@.len(),
            out@ == tags_bytes(tag_seq(tags@.take(i as int))),
        decreases tags@.len() - i,
    {
        let (k, v) = &tags[i];
        let ghost o0 = out@;
        push_decimal(&mut out, k.len());
        out.push(58);
        append_slice(&mut out, k.as_slice());
        out.push(61);
        push_decimal(&mut out, v.len());
        out.push(58);
        append_slice(&mut out, v.as_slice());
        out.push(44);
        proof {
            assert(tag_seq(tags@.take(i + 1)).drop_last() =~= tag_seq(tags@.take(i as int)));
            assert(tag_seq(tags@.take(i + 1)).last() == (k@, v@));
            assert(out@ =~= o0 + tag_entry(k@, v@));
        }
        i = i + 1;
    }
    proof {
        assert(tags@.take(tags@.len() as int) =~= tags@);
    }
    out
}

/// The index of the first `d` in `s` at or after `i`, or `s.len()`.
pub open spec fn find_from(s: Seq<u8>, i: int, d: u8) -> int
    decreases s.len() - i,
{
    if i >= s.len() {
        s.len() as int
    } else if s[i] == d {
        i
    } else {
        find_from(s, i + 1, d)
    }
}

/// The value of a sequence of decimal digits.
pub open spec fn digits_value(s: Seq<u8>) -> nat
    decreases s.len(),
{
    if s.len() == 0 {
        0
    } else {
        digits_value(s.drop_last()) * 10 + (s.last() - 48) as nat
    }
}

/// Whether every byte is a decimal digit.
pub open spec fn all_digits(s: Seq<u8>) -> bool {
    forall|i: int| 0 <= i < s.len() ==> 48 <= #[trigger] s[i] <= 57
}

/// What `usize::from_str` makes of `s`: an optional `+`, then at least one
/// decimal digit, the value fitting in `usize`.
pub open spec fn parse_usize(s: Seq<u8>) -> Option<nat> {
    let d = if s.len() > 0 && s[0] == 43 {
        s.skip(1)
    } else {
        s
    };
    if d.len() == 0 || !all_digits(d) || digits_value(d) > usize::MAX {
        None
    } else {
        Some(digits_value(d))
    }
}

/// What one comma-separated field gives: `None` where a length is not a
/// number, `Some(None)` for a field that is skipped (no `=`, no `:`, or a
/// length that does not match), and the key and value of a tag otherwise.
pub open spec fn parse_field(f: Seq<u8>) -> Option<Option<(Seq<u8>, Seq<u8>)>> {
    let eq = find_from(f, 0, 61);
    if eq >= f.len() {
        Some(None)
    } else {
        let kp = f.take(eq);
        let vp = f.skip(eq + 1);
        let c1 = find_from(kp, 0, 58);
        if c1 >= kp.len() {
            Some(None)
        } else {
            match parse_usize(kp.take(c1)) {
                None => None,
                Some(kl) => {
                    let key = kp.skip(c1 + 1);
                    if key.len() != kl {
                        Some(None)
                    } else {
                        let c2 = find_from(vp, 0, 58);
                        if c2 >= vp.len() {
                            Some(None)
                        } else {
                            match parse_usize(vp.take(c2)) {
                                None => None,
                                Some(vl) => {
                                    let val = vp.skip(c2 + 1);
                                    if val.len() != vl {
                                        Some(None)
                                    } else {
                                        Some(Some((key, val)))
                                    }
                                },
                            }
                        }
                    }
                },
            }
        }
    }
}

pub proof fn lemma_find_bounds(s: Seq<u8>, i: int, d: u8)
    requires
        0 <= i <= s.len(),
    ensures
        i <= find_from(s, i, d) <= s.len(),
        find_from(s, i, d) < s.len() ==> s[find_from(s, i, d)] == d,
        forall|j: int| i <= j < find_from(s, i, d) ==> s[j] != d,
    decreases s.len() - i,
{
    if i < s.len() && s[i] != d {
        lemma_find_bounds(s, i + 1, d);
    }
}

/// The tags of the fields from byte `start` on, in order.
pub open spec fn tags_parse(b: Seq<u8>, start: int) -> Result<Seq<(Seq<u8>, Seq<u8>)>, TlgError>
    decreases b.len() + 1 - start,
{
    if start < 0 || start > b.len() {
        Ok(Seq::empty())
    } else {
        proof {
            lemma_find_bounds(b, start, 44);
        }
        let end = find_from(b, start, 44);
        match parse_field(b.subrange(start, end)) {
            None => Err(TlgError::TagLengthNotNumber),
            Some(x) => match tags_parse(b, end + 1) {
                Err(e) => Err(e),
                Ok(rest) => Ok(
                    match x {
                        None => rest,
                        Some(kv) => seq![kv] + rest,
                    },
                ),
            },
        }
    }
}

/// What the tag block `b` gives: its tags, in order (a later tag with the
/// same key replaces an earlier one in a map).
pub open spec fn tags_spec(b: Seq<u8>) -> Result<Seq<(Seq<u8>, Seq<u8>)>, TlgError> {
    tags_given(b, is_utf8(b))
}

/// What the tag block `b` gives once it is known whether it is UTF-8.
pub open spec fn tags_given(b: Seq<u8>, utf8: bool) -> Result<Seq<(Seq<u8>, Seq<u8>)>, TlgError> {
    if utf8 {
        tags_parse(b, 0)
    } else {
        Err(TlgError::TagsNotUtf8)
    }
}

/// The first `d` in `data[lo..hi]`, or `hi`.
fn find_in(data: &[u8], lo: usize, hi: usize, d: u8) -> (r: usize)
    requires
        lo <= hi <= data@.len(),
    ensures
        r == lo + find_from(data@.subrange(lo as int, hi as int), 0, d),
        lo <= r <= hi,
{
    let ghost s = data@.subrange(lo as int, hi as int);
    proof {
        lemma_find_bounds(s, 0, d);
    }
    let mut i = lo;
    while i < hi && data[i] != d
        invariant
            lo <= i <= hi,
            hi <= data@.len(),
            s == data@.subrange(lo as int, hi as int),
            find_from(s, i - lo, d) == find_from(s, 0, d),
            lo <= find_from(s, 0, d) + lo <= hi,
        decreases hi - i,
    {
        i = i + 1;
    }
    i
}

/// A copy of `data[lo..hi]`.
pub(crate) fn copy_range(data: &[u8], lo: usize, hi: usize) -> (r: Vec<u8>)
    requires
        lo <= hi <= data@.len(),
    ensures
        r@ == data@.subrange(lo as int, hi as int),
{
    let mut r: Vec<u8> = Vec::new();
    r.extend_from_slice(&data[lo..hi]);
    proof {
        assert forall|k: int| 0 <= k < r@.len() implies r@[k] == data@[lo + k] by {
            assert(cloned(data@.subrange(lo as int, hi as int)[k], r@[k]));
        }
        assert(r@ =~= data@.subrange(lo as int, hi as int));
    }
    r
}

proof fn lemma_digits_grow(s: Seq<u8>, i: int)
    requires
        0 <= i <= s.len(),
        all_digits(s),
    ensures
        digits_value(s.take(i)) <= digits_value(s),
    decreases s.len() - i,
{
    if i < s.len() {
        lemma_digits_grow(s, i + 1);
        assert(s.take(i + 1).drop_last() =~= s.take(i));
        assert(48 <= s[i] <= 57);
        assert(s.take(i + 1).last() == s[i]);
        let x = digits_value(s.take(i));
        assert(x <= x * 10 + (s[i] - 48) as nat) by (nonlinear_arith)
            requires
                x >= 0,
                48 <= s[i] <= 57,
        ;
    } else {
        assert(s.take(i) =~= s);
    }
}

/// `usize::from_str` on `data[lo..hi]` (see `parse_usize`).
fn parse_usize_in(data: &[u8], lo: usize, hi: usize) -> (r: Option<usize>)
    requires
        lo <= hi <= data@.len(),
    ensures
        match parse_usize(data@.subrange(lo as int, hi as int)) {
            None => r is None,
            Some(v) => r == Some(v as usize),
        },
{
    let ghost s = data@.subrange(lo as int, hi as int);
    let mut i = lo;
    if i < hi && data[i] == 43 {
        i = i + 1;
    }
    let ghost dgs = data@.subrange(i as int, hi as int);
    proof {
        if s.len() > 0 && s[0] == 43 {
            assert(dgs =~= s.skip(1));
        } else {
            assert(dgs =~= s);
        }
    }
    if i == hi {
        return None;
    }
    let start = i;
    let mut acc: usize = 0;
    proof {
        assert(dgs.take(0) =~= Seq::<u8>::empty());
    }
    while i < hi
        invariant
            start <= i <= hi,
            hi <= data@.len(),
            lo <= start,
            s == data@.subrange(lo as int, hi as int),
            dgs == (if s.len() > 0 && s[0] == 43 { s.skip(1) } else { s }),
            dgs.len() > 0,
            dgs == data@.subrange(start as int, hi as int),
            all_digits(dgs.take(i - start)),
            acc == digits_value(dgs.take(i - start)),
        decreases hi - i,
    {
        let c = data[i];
        if c < 48 || c > 57 {
            proof {
                assert(!(48 <= dgs[i - start] <= 57));
            }
            return None;
        }
        proof {
            assert(dgs.take(i - start + 1).drop_last() =~= dgs.take(i - start));
            assert(dgs.take(i - start + 1).last() == c);
        }
        let m = acc.checked_mul(10);
        match m {
            None => {
                proof {
                    if all_digits(dgs) {
                        lemma_digits_grow(dgs, i - start + 1);
                    }
                }
                return None;
            },
            Some(m) => {
                let a = m.checked_add((c - 48) as usize);
                match a {
                    None => {
                        proof {
                            if all_digits(dgs) {
                                lemma_digits_grow(dgs, i - start + 1);
                            }
                        }
                        return None;
                    },
                    Some(a) => {
                        acc = a;
                    },
                }
            },
        }
        i = i + 1;
        proof {
            assert forall|k: int| 0 <= k < i - start implies 48 <= #[trigger] dgs.take(i - start)[k] <= 57 by {
                if k < i - start - 1 {
                    assert(dgs.take(i - start - 1)[k] == dgs.take(i - start)[k]);
                }
            }
        }
    }
    proof {
        assert(dgs.take(hi - start) =~= dgs);
    }
    Some(acc)
}

/// What the field `data[lo..hi]` gives (see `parse_field`).
fn parse_field_in(data: &[u8], lo: usize, hi: usize) -> (r: Option<Option<(Vec<u8>, Vec<u8>)>>)
    requires
        lo <= hi <= data@.len(),
    ensures
        match parse_field(data@.subrange(lo as int, hi as int)) {
            None => r is None,
            Some(None) => r == Some(None::<(Vec<u8>, Vec<u8>)>),
            Some(Some((k, v))) => r matches Some(Some((rk, rv))) && rk@ == k && rv@ == v,
        },
{
    let ghost f = data@.subrange(lo as int, hi as int);
    let eq = find_in(data, lo, hi, 61);
    if eq >= hi {
        return Some(None);
    }
    let ghost kp = f.take(eq - lo);
    let ghost vp = f.skip(eq - lo + 1);
    assert(kp =~= data@.subrange(lo as int, eq as int));
    assert(vp =~= data@.subrange(eq + 1, hi as int));
    let c1 = find_in(data, lo, eq, 58);
    if c1 >= eq {
        return Some(None);
    }
    assert(kp.take(c1 - lo) =~= data@.subrange(lo as int, c1 as int));
    let kl = match parse_usize_in(data, lo, c1) {
        None => {
            return None;
        },
        Some(v) => v,
    };
    assert(kp.skip(c1 - lo + 1) =~= data@.subrange(c1 + 1, eq as int));
    if eq - (c1 + 1) != kl {
        return Some(None);
    }
    let c2 = find_in(data, eq + 1, hi, 58);
    if c2 >= hi {
        return Some(None);
    }
    assert(vp.take(c2 - eq - 1) =~= data@.subrange(eq + 1, c2 as int));
    let vl = match parse_usize_in(data, eq + 1, c2) {
        None => {
            return None;
        },
        Some(v) => v,
    };
    assert(vp.skip(c2 - eq) =~= data@.subrange(c2 + 1, hi as int));
    if hi - (c2 + 1) != vl {
        return Some(None);
    }
    let key = copy_range(data, c1 + 1, eq);
    let val = copy_range(data, c2 + 1, hi);
    Some(Some((key, val)))
}

/// The position of the last tag keyed `k`, or -1 where there is none.
pub open spec fn key_index(tags: Seq<(Seq<u8>, Seq<u8>)>, k: Seq<u8>) -> int
    decreases tags.len(),
{
    if tags.len() == 0 {
        -1
    } else if tags.last().0 == k {
        tags.len() - 1
    } else {
        key_index(tags.drop_last(), k)
    }
}

/// The tags as a map filled in order holds them: each key once, where it
/// first occurs, with the value given last for it.
pub open spec fn dedup_last(tags: Seq<(Seq<u8>, Seq<u8>)>) -> Seq<(Seq<u8>, Seq<u8>)>
    decreases tags.len(),
{
    if tags.len() == 0 {
        Seq::empty()
    } else {
        let acc = dedup_last(tags.drop_last());
        let x = tags.last();
        let i = key_index(acc, x.0);
        if i >= 0 {
            acc.update(i, x)
        } else {
            acc.push(x)
        }
    }
}

/// No key occurs twice.
pub open spec fn keys_distinct(tags: Seq<(Seq<u8>, Seq<u8>)>) -> bool {
    forall|i: int, j: int| 0 <= i < j < tags.len() ==> #[trigger] tags[i].0 != #[trigger] tags[j].0
}

proof fn lemma_key_index(tags: Seq<(Seq<u8>, Seq<u8>)>, k: Seq<u8>)
    ensures
        -1 <= key_index(tags, k) < tags.len(),
        key_index(tags, k) >= 0 ==> tags[key_index(tags, k)].0 == k,
        key_index(tags, k) == -1 ==> forall|i: int| 0 <= i < tags.len() ==> #[trigger] tags[i].0 != k,
    decreases tags.len(),
{
    if tags.len() > 0 {
        lemma_key_index(tags.drop_last(), k);
        if key_index(tags, k) == -1 {
            assert forall|i: int| 0 <= i < tags.len() implies #[trigger] tags[i].0 != k by {
                if i < tags.len() - 1 {
                    assert(tags.drop_last()[i] == tags[i]);
                }
            }
        }
    }
}

/// Keeping the last value of each key leaves each key once.
pub proof fn lemma_dedup_distinct(tags: Seq<(Seq<u8>, Seq<u8>)>)
    ensures
        keys_distinct(dedup_last(tags)),
    decreases tags.len(),
{
    if tags.len() > 0 {
        let acc = dedup_last(tags.drop_last());
        let x = tags.last();
        lemma_dedup_distinct(tags.drop_last());
        lemma_key_index(acc, x.0);
        let d = dedup_last(tags);
        assert forall|i: int, j: int| 0 <= i < j < d.len() implies #[trigger] d[i].0 != #[trigger] d[j].0 by {
            if key_index(acc, x.0) >= 0 {
                assert(acc[i].0 != acc[j].0);
            } else if j < acc.len() {
                assert(acc[i].0 != acc[j].0);
            }
        }
    }
}

/// Tags whose keys are distinct are kept as they are.
pub proof fn lemma_dedup_keeps_distinct(tags: Seq<(Seq<u8>, Seq<u8>)>)
    requires
        keys_distinct(tags),
    ensures
        dedup_last(tags) == tags,
    decreases tags.len(),
{
    if tags.len() > 0 {
        let t0 = tags.drop_last();
        assert(keys_distinct(t0)) by {
            assert forall|i: int, j: int| 0 <= i < j < t0.len() implies #[trigger] t0[i].0 != #[trigger] t0[j].0 by {
                assert(tags[i].0 != tags[j].0);
            }
        }
        lemma_dedup_keeps_distinct(t0);
        lemma_key_index(t0, tags.last().0);
        if key_index(t0, tags.last().0) >= 0 {
            let i = key_index(t0, tags.last().0);
            assert(tags[i].0 != tags[tags.len() - 1].0);
        }
        assert(t0.push(tags.last()) =~= tags);
    }
}

/// Whether two byte strings are equal.
fn bytes_equal(a: &Vec<u8>, b: &Vec<u8>) -> (r: bool)
    ensures
        r == (a@ == b@),
{
    if a.len() != b.len() {
        return false;
    }
    let mut i: usize = 0;
    while i < a.len()
        invariant
            i <= a@.len(),
            a@.len() == b@.len(),
            forall|j: int| 0 <= j < i ==> a@[j] == b@[j],
        decreases a@.len() - i,
    {
        if a[i] != b[i] {
            return false;
        }
        i = i + 1;
    }
    assert(a@ =~= b@);
    true
}

/// Where the last tag keyed `k` stands (see `key_index`).
fn find_key(tags: &Vec<(Vec<u8>, Vec<u8>)>, k: &Vec<u8>) -> (r: Option<usize>)
    ensures
        match r {
            Some(i) => i < tags@.len() && i == key_index(tag_seq(tags@), k@),
            None => key_index(tag_seq(tags@), k@) == -1,
        },
{
    let mut j: usize = tags.len();
    let ghost t = tag_seq(tags@);
    proof {
        assert(t.take(j as int) =~= t);
    }
    while j > 0
        invariant
            j <= tags@.len(),
            t == tag_seq(tags@),
            key_index(t, k@) == key_index(t.take(j as int), k@),
        decreases j,
    {
        let ghost tj = t.take(j as int);
        if bytes_equal(&tags[j - 1].0, k) {
            return Some(j - 1);
        }
        proof {
            assert(tj.drop_last() =~= t.take(j - 1));
        }
        j = j - 1;
    }
    None
}

/// Parses a tag block.  Fails where the block is not UTF-8, or where a
/// length in it is not a decimal number.  Of the tags it holds, each key
/// is kept once, where it first occurs, with the value given last for it
/// (`dedup_last`).
pub fn data_to_tags(data: &[u8]) -> (r: Result<Vec<(Vec<u8>, Vec<u8>)>, TlgError>)
    ensures
        match tags_spec(data@) {
            Ok(t) => r matches Ok(v) && tag_seq(v@) == dedup_last(t),
            Err(e) => r == Err::<Vec<(Vec<u8>, Vec<u8>)>, TlgError>(e),
        },
        r matches Ok(v) ==> keys_distinct(tag_seq(v@)),
{
    let utf8 = utf8_ok(data);
    parse_tags(data, utf8)
}

/// Parses a tag block whose UTF-8 verdict is `utf8` (see `data_to_tags`):
/// fails with `TagsNotUtf8` where the verdict is false, with
/// `TagLengthNotNumber` where a length is not a decimal number; otherwise
/// gives each key once, where it first occurs, with its last value.
pub fn parse_tags(data: &[u8], utf8: bool) -> (r: Result<Vec<(Vec<u8>, Vec<u8>)>, TlgError>)
    ensures
        match tags_given(data@, utf8) {
            Ok(t) => r matches Ok(v) && tag_seq(v@) == dedup_last(t),
            Err(e) => r == Err::<Vec<(Vec<u8>, Vec<u8>)>, TlgError>(e),
        },
        r matches Ok(v) ==> keys_distinct(tag_seq(v@)),
{
    if !utf8 {
        return Err(TlgError::TagsNotUtf8);
    }
    let ghost b = data@;
    let mut out: Vec<(Vec<u8>, Vec<u8>)> = Vec::new();
    let ghost mut seen: Seq<(Seq<u8>, Seq<u8>)> = Seq::empty();
    let mut start: usize = 0;
    proof {
        assert(tag_seq(out@) =~= dedup_last(seen));
        match tags_parse(b, 0) {
            Ok(rest) => {
                assert(seen + rest =~= rest);
            },
            Err(_) => {},
        }
    }
    loop
        invariant
            b == data@,
            utf8,
            start <= data@.len(),
            tag_seq(out@) == dedup_last(seen),
            tags_parse(b, 0) == match tags_parse(b, start as int) {
                Ok(rest) => Ok(seen + rest),
                Err(e) => Err::<Seq<(Seq<u8>, Seq<u8>)>, TlgError>(e),
            },
        decreases data@.len() - start,
    {
        let end = find_in(data, start, data.len(), 44);
        proof {
            lemma_find_bounds(b.subrange(start as int, b.len() as int), 0, 44);
            lemma_find_shift(b, start as int, 44);
            assert(b.subrange(start as int, end as int) == b.subrange(start as int, find_from(b, start as int, 44)));
        }
        let field = parse_field_in(data, start, end);
        match field {
            None => {
                return Err(TlgError::TagLengthNotNumber);
            },
            Some(x) => {
                let ghost s0 = seen;
                let ghost xg = x;
                match x {
                    None => {},
                    Some(kv) => {
                        let ghost o0 = tag_seq(out@);
                        let ghost kvs = (kv.0@, kv.1@);
                        proof {
                            seen = seen.push(kvs);
                            assert(seen.drop_last() =~= s0);
                        }
                        match find_key(&out, &kv.0) {
                            Some(i) => {
                                out.set(i, kv);
                                proof {
                                    assert(tag_seq(out@) =~= o0.update(i as int, kvs));
                                }
                            },
                            None => {
                                out.push(kv);
                                proof {
                                    assert(tag_seq(out@) =~= o0.push(kvs));
                                }
                            },
                        }
                    },
                }
                proof {
                    match tags_parse(b, end + 1) {
                        Ok(rest) => {
                            if let Some(kv) = xg {
                                assert(s0 + (seq![(kv.0@, kv.1@)] + rest) =~= seen + rest);
                            }
                        },
                        Err(_) => {},
                    }
                }
            },
        }
        if end == data.len() {
            proof {
                assert(tags_parse(b, end + 1) == Ok::<Seq<(Seq<u8>, Seq<u8>)>, TlgError>(Seq::empty()));
                assert(seen + Seq::<(Seq<u8>, Seq<u8>)>::empty() =~= seen);
                lemma_dedup_distinct(seen);
            }
            return Ok(out);
        }
        start = end + 1;
    }
}

/// Searching from `i` in `s` is searching from 0 in `s[i..]`, shifted.
proof fn lemma_find_shift(s: Seq<u8>, i: int, d: u8)
    requires
        0 <= i <= s.len(),
    ensures
        find_from(s, i, d) == i + find_from(s.subrange(i, s.len() as int), 0, d),
{
    lemma_find_shift_from(s, i, 0, d);
}

proof fn lemma_find_shift_from(s: Seq<u8>, i: int, j: int, d: u8)
    requires
        0 <= i,
        0 <= j,
        i + j <= s.len(),
    ensures
        find_from(s, i + j, d) == i + find_from(s.subrange(i, s.len() as int), j, d),
    decreases s.len() - (i + j),
{
    if i + j < s.len() && s[i + j] != d {
        lemma_find_shift_from(s, i, j + 1, d);
    }
}

/// No byte of `s` is `d`.
pub open spec fn lacks(s: Seq<u8>, d: u8) -> bool {
    forall|i: int| 0 <= i < s.len() ==> #[trigger] s[i] != d
}

/// A tag that reads back as written: its key holds no `,` or `=`, its
/// value no `,`.
pub open spec fn tag_safe(k: Seq<u8>, v: Seq<u8>) -> bool {
    &&& lacks(k, 44)
    &&& lacks(k, 61)
    &&& lacks(v, 44)
    &&& k.len() <= usize::MAX
    &&& v.len() <= usize::MAX
}

proof fn lemma_decimal(n: nat)
    ensures
        decimal(n).len() > 0,
        all_digits(decimal(n)),
        digits_value(decimal(n)) == n,
    decreases n,
{
    if n >= 10 {
        lemma_decimal(n / 10);
        let d = decimal(n);
        assert(d.drop_last() =~= decimal(n / 10));
        assert(d.last() == (48 + n % 10) as u8);
        assert((d.last() - 48) as nat == n % 10);
        assert(digits_value(d) == digits_value(decimal(n / 10)) * 10 + n % 10);
        assert forall|i: int| 0 <= i < d.len() implies 48 <= #[trigger] d[i] <= 57 by {
            if i < d.len() - 1 {
                assert(d[i] == decimal(n / 10)[i]);
            }
        }
    } else {
        assert(seq![(48 + n) as u8].drop_last() =~= Seq::<u8>::empty());
        assert(digits_value(Seq::<u8>::empty()) == 0);
        assert(digits_value(decimal(n)) == digits_value(Seq::<u8>::empty()) * 10 + n);
    }
}

proof fn lemma_digits_lack(s: Seq<u8>, d: u8)
    requires
        all_digits(s),
        d < 48 || d > 57,
    ensures
        lacks(s, d),
{
    assert forall|i: int| 0 <= i < s.len() implies #[trigger] s[i] != d by {
        assert(48 <= s[i] <= 57);
    }
}

/// The first `d` is where the prefix lacking it ends.
proof fn lemma_find_exact(s: Seq<u8>, m: int, d: u8)
    requires
        0 <= m <= s.len(),
        lacks(s.take(m), d),
        m < s.len() ==> s[m] == d,
    ensures
        find_from(s, 0, d) == m,
{
    lemma_find_exact_from(s, 0, m, d);
}

proof fn lemma_find_exact_from(s: Seq<u8>, i: int, m: int, d: u8)
    requires
        0 <= i <= m <= s.len(),
        lacks(s.take(m), d),
        m < s.len() ==> s[m] == d,
    ensures
        find_from(s, i, d) == m,
    decreases m - i,
{
    if i < m {
        assert(s.take(m)[i] != d);
        lemma_find_exact_from(s, i + 1, m, d);
    }
}

proof fn lemma_parse_decimal(n: nat)
    requires
        n <= usize::MAX,
    ensures
        parse_usize(decimal(n)) == Some(n),
{
    lemma_decimal(n);
    assert(48 <= decimal(n)[0] <= 57);
}

/// The field of one tag, without its comma, parses back to the tag.
proof fn lemma_parse_entry(k: Seq<u8>, v: Seq<u8>)
    requires
        tag_safe(k, v),
    ensures
        parse_field(tag_entry(k, v).drop_last()) == Some(Some((k, v))),
{
    let d1 = decimal(k.len());
    let d2 = decimal(v.len());
    lemma_decimal(k.len());
    lemma_decimal(v.len());
    lemma_digits_lack(d1, 61);
    lemma_digits_lack(d1, 58);
    lemma_digits_lack(d2, 58);
    let kp = d1 + seq![58u8] + k;
    let vp = d2 + seq![58u8] + v;
    let f = tag_entry(k, v).drop_last();
    assert(f =~= kp + seq![61u8] + vp);
    let e = kp.len() as int;
    assert(f.take(e) =~= kp);
    assert(lacks(f.take(e), 61)) by {
        assert forall|i: int| 0 <= i < kp.len() implies #[trigger] kp[i] != 61u8 by {
            if i < d1.len() {
                assert(kp[i] == d1[i]);
            } else if i > d1.len() {
                assert(kp[i] == k[i - d1.len() - 1]);
            }
        }
    }
    lemma_find_exact(f, e, 61);
    assert(f.skip(e + 1) =~= vp);
    assert(kp.take(d1.len() as int) =~= d1);
    lemma_find_exact(kp, d1.len() as int, 58);
    lemma_parse_decimal(k.len());
    assert(kp.skip(d1.len() as int + 1) =~= k);
    assert(vp.take(d2.len() as int) =~= d2);
    lemma_find_exact(vp, d2.len() as int, 58);
    lemma_parse_decimal(v.len());
    assert(vp.skip(d2.len() as int + 1) =~= v);
}

proof fn lemma_tags_bytes_front(x: (Seq<u8>, Seq<u8>), t: Seq<(Seq<u8>, Seq<u8>)>)
    ensures
        tags_bytes(seq![x] + t) == tag_entry(x.0, x.1) + tags_bytes(t),
    decreases t.len(),
{
    if t.len() == 0 {
        assert(seq![x] + t =~= seq![x]);
        assert(seq![x].drop_last() =~= Seq::<(Seq<u8>, Seq<u8>)>::empty());
        assert(tags_bytes(Seq::<(Seq<u8>, Seq<u8>)>::empty()) == Seq::<u8>::empty());
        assert(tags_bytes(t) == Seq::<u8>::empty());
        assert(seq![x].last() == x);
        assert(tags_bytes(seq![x]) == tags_bytes(Seq::<(Seq<u8>, Seq<u8>)>::empty()) + tag_entry(x.0, x.1));
        assert(tag_entry(x.0, x.1) + Seq::<u8>::empty() =~= tag_entry(x.0, x.1));
        assert(Seq::<u8>::empty() + tag_entry(x.0, x.1) =~= tag_entry(x.0, x.1));
    } else {
        lemma_tags_bytes_front(x, t.drop_last());
        assert((seq![x] + t).drop_last() =~= seq![x] + t.drop_last());
        assert((seq![x] + t).last() == t.last());
        assert(tag_entry(x.0, x.1) + tags_bytes(t.drop_last()) + tag_entry(t.last().0, t.last().1) =~= tag_entry(x.0, x.1)
            + (tags_bytes(t.drop_last()) + tag_entry(t.last().0, t.last().1)));
    }
}

/// Parsing after a prefix ignores the prefix.
proof fn lemma_parse_shift(p: Seq<u8>, r: Seq<u8>, j: int)
    requires
        0 <= j,
    ensures
        tags_parse(p + r, p.len() + j) == tags_parse(r, j),
    decreases r.len() + 1 - j,
{
    let b = p + r;
    if j <= r.len() {
        lemma_find_bounds(r, j, 44);
        lemma_find_shift_prefix(p, r, j, 44);
        let end = find_from(r, j, 44);
        assert(b.subrange(p.len() + j, p.len() + end) =~= r.subrange(j, end));
        lemma_parse_shift(p, r, end + 1);
    }
}

proof fn lemma_find_shift_prefix(p: Seq<u8>, r: Seq<u8>, j: int, d: u8)
    requires
        0 <= j <= r.len(),
    ensures
        find_from(p + r, p.len() + j, d) == p.len() + find_from(r, j, d),
    decreases r.len() - j,
{
    if j < r.len() && r[j] != d {
        assert((p + r)[p.len() + j] == r[j]);
        lemma_find_shift_prefix(p, r, j + 1, d);
    } else if j < r.len() {
        assert((p + r)[p.len() + j] == r[j]);
    }
}

/// The tag block of tags that read back as written parses back to those
/// tags, in order.
pub proof fn lemma_tags_roundtrip(t: Seq<(Seq<u8>, Seq<u8>)>)
    requires
        forall|i: int| 0 <= i < t.len() ==> tag_safe(#[trigger] t[i].0, t[i].1),
    ensures
        tags_parse(tags_bytes(t), 0) == Ok::<Seq<(Seq<u8>, Seq<u8>)>, TlgError>(t),
    decreases t.len(),
{
    if t.len() == 0 {
        assert(tags_bytes(t) =~= Seq::<u8>::empty());
        assert(Seq::<u8>::empty().subrange(0, 0) =~= Seq::<u8>::empty());
        assert(find_from(Seq::<u8>::empty(), 0, 61) == 0);
        assert(find_from(Seq::<u8>::empty(), 0, 44) == 0);
        assert(parse_field(Seq::<u8>::empty()) == Some(None::<(Seq<u8>, Seq<u8>)>));
        assert(tags_parse(Seq::<u8>::empty(), 1) == Ok::<Seq<(Seq<u8>, Seq<u8>)>, TlgError>(Seq::empty()));
        assert(t =~= Seq::<(Seq<u8>, Seq<u8>)>::empty());
    } else {
        let x = t[0];
        let rest = t.skip(1);
        assert(t =~= seq![x] + rest);
        assert(tag_safe(x.0, x.1));
        lemma_tags_bytes_front(x, rest);
        assert forall|i: int| 0 <= i < rest.len() implies tag_safe(#[trigger] rest[i].0, rest[i].1) by {
            assert(rest[i] == t[i + 1]);
        }
        lemma_tags_roundtrip(rest);
        let e = tag_entry(x.0, x.1);
        let b = e + tags_bytes(rest);
        lemma_decimal(x.0.len());
        lemma_decimal(x.1.len());
        lemma_digits_lack(decimal(x.0.len()), 44);
        lemma_digits_lack(decimal(x.1.len()), 44);
        assert(lacks(b.take(e.len() - 1), 44)) by {
            assert(b.take(e.len() - 1) =~= e.drop_last());
            let d1 = decimal(x.0.len());
            let d2 = decimal(x.1.len());
            assert(e.drop_last() =~= d1 + seq![58u8] + x.0 + seq![61u8] + d2 + seq![58u8] + x.1);
            assert forall|i: int| 0 <= i < e.len() - 1 implies #[trigger] e.drop_last()[i] != 44u8 by {
                let o1 = d1.len() as int;
                let o2 = o1 + 1 + x.0.len();
                let o3 = o2 + 1 + d2.len();
                if i < o1 {
                    assert(e.drop_last()[i] == d1[i]);
                } else if o1 < i < o2 {
                    assert(e.drop_last()[i] == x.0[i - o1 - 1]);
                } else if o2 < i < o3 {
                    assert(e.drop_last()[i] == d2[i - o2 - 1]);
                } else if i > o3 {
                    assert(e.drop_last()[i] == x.1[i - o3 - 1]);
                }
            }
        }
        assert(b[e.len() - 1] == 44u8);
        lemma_find_exact(b, e.len() - 1, 44);
        assert(b.subrange(0, e.len() - 1) =~= e.drop_last());
        lemma_parse_entry(x.0, x.1);
        lemma_parse_shift(e, tags_bytes(rest), 0);
        assert(tags_parse(b, e.len() as int) == tags_parse(tags_bytes(rest), 0));
        assert(seq![x] + rest =~= t);
    }
}

} // verus!
