//! Searching, splitting and replacing in strings of bytes.

use vstd::prelude::*;

verus! {

/// `s` begins with `prefix`.
pub open spec fn has_prefix(s: Seq<u8>, prefix: Seq<u8>) -> bool {
    prefix.len() <= s.len() && s.take(prefix.len() as int) == prefix
}

/// `s` ends with `suffix`.
pub open spec fn has_suffix(s: Seq<u8>, suffix: Seq<u8>) -> bool {
    suffix.len() <= s.len() && s.skip(s.len() - suffix.len()) == suffix
}

/// Where `needle` first stands in `s`.
pub open spec fn first_match(s: Seq<u8>, needle: Seq<u8>) -> Option<nat>
    decreases s.len(),
{
    if has_prefix(s, needle) {
        Some(0nat)
    } else if s.len() == 0 {
        None
    } else {
        match first_match(s.skip(1), needle) {
            Some(p) => Some(p + 1),
            None => None,
        }
    }
}

/// The pieces of `s` between the places where `sep` stands, found from left
/// to right. An empty `sep` parts nothing.
pub open spec fn split(s: Seq<u8>, sep: Seq<u8>) -> Seq<Seq<u8>>
    decreases s.len(),
{
    if sep.len() == 0 {
        seq![s]
    } else {
        match first_match(s, sep) {
            Some(p) => if p + sep.len() <= s.len() {
                seq![s.take(p as int)] + split(s.skip((p + sep.len()) as int), sep)
            } else {
                seq![s]
            },
            None => seq![s],
        }
    }
}

/// `s` with `to` in each place where `from` stands, found from left to
/// right. An empty `from` stands nowhere.
pub open spec fn replaced(s: Seq<u8>, from: Seq<u8>, to: Seq<u8>) -> Seq<u8>
    decreases s.len(),
{
    if from.len() == 0 || s.len() < from.len() {
        s
    } else if has_prefix(s, from) {
        to + replaced(s.skip(from.len() as int), from, to)
    } else {
        seq![s[0]] + replaced(s.skip(1), from, to)
    }
}

/// `fields` one after the other, with `sep` between each two.
pub open spec fn joined(fields: Seq<Seq<u8>>, sep: u8) -> Seq<u8>
    decreases fields.len(),
{
    if fields.len() == 0 {
        Seq::empty()
    } else if fields.len() == 1 {
        fields[0]
    } else {
        joined(fields.drop_last(), sep).push(sep) + fields.last()
    }
}

/// `needle` stands nowhere in a string shorter than itself.
pub proof fn lemma_first_match_short(s: Seq<u8>, needle: Seq<u8>)
    requires
        s.len() < needle.len(),
    ensures
        first_match(s, needle) is None,
    decreases s.len(),
{
    if s.len() > 0 {
        lemma_first_match_short(s.skip(1), needle);
    }
}

/// Whether `needle` stands in `s` at `at`, looking no further than `to`.
pub fn stands_at(s: &[u8], at: usize, to: usize, needle: &[u8]) -> (r: bool)
    requires
        at <= to <= s@.len(),
    ensures
        r == has_prefix(s@.subrange(at as int, to as int), needle@),
{
    let n = needle.len();
    if to - at < n {
        return false;
    }
    let ghost part = s@.subrange(at as int, to as int);
    let mut k: usize = 0;
    while k < n
        invariant
            at <= to <= s@.len(),
            n == needle@.len(),
            n <= to - at,
            k <= n,
            part == s@.subrange(at as int, to as int),
            forall|j: int| 0 <= j < k ==> part[j] == needle@[j],
        decreases n - k,
    {
        if s[at + k] != needle[k] {
            assert(part.take(n as int)[k as int] != needle@[k as int]);
            return false;
        }
        k += 1;
    }
    assert(part.take(n as int) =~= needle@);
    true
}

/// Whether `s` begins with `prefix`.
pub fn starts_with(s: &[u8], prefix: &[u8]) -> (r: bool)
    ensures
        r == has_prefix(s@, prefix@),
{
    assert(s@.subrange(0, s@.len() as int) =~= s@);
    stands_at(s, 0, s.len(), prefix)
}

/// Whether `s` ends with `suffix`.
pub fn ends_with(s: &[u8], suffix: &[u8]) -> (r: bool)
    ensures
        r == has_suffix(s@, suffix@),
{
    let n = suffix.len();
    if s.len() < n {
        return false;
    }
    let at = s.len() - n;
    let r = stands_at(s, at, s.len(), suffix);
    proof {
        let part = s@.subrange(at as int, s@.len() as int);
        assert(part =~= s@.skip(s@.len() - n));
        assert(part.take(n as int) =~= part);
    }
    r
}

/// Where `needle` first stands in `s` from `from` on, looking no further
/// than `to`.
pub fn find(s: &[u8], from: usize, to: usize, needle: &[u8]) -> (r: Option<usize>)
    requires
        from <= to <= s@.len(),
    ensures
        match r {
            Some(p) => from <= p && p + needle@.len() <= to && first_match(
                s@.subrange(from as int, to as int),
                needle@,
            ) == Some((p - from) as nat),
            None => first_match(s@.subrange(from as int, to as int), needle@) is None,
        },
{
    let n = needle.len();
    let mut i = from;
    while to - i >= n
        invariant
            from <= i <= to,
            to <= s@.len(),
            n == needle@.len(),
            first_match(s@.subrange(from as int, to as int), needle@) == match first_match(
                s@.subrange(i as int, to as int),
                needle@,
            ) {
                Some(p) => Some((p + (i - from)) as nat),
                None => None,
            },
        decreases to - i,
    {
        if stands_at(s, i, to, needle) {
            return Some(i);
        }
        assert(i < to) by {
            if i == to {
                assert(s@.subrange(i as int, to as int).take(0) =~= needle@);
            }
        }
        assert(s@.subrange(i as int, to as int).skip(1) =~= s@.subrange(i + 1, to as int));
        i += 1;
    }
    proof {
        lemma_first_match_short(s@.subrange(i as int, to as int), needle@);
    }
    None
}

/// Adds the bytes of `s` from `from` up to `to` at the end of `out`.
fn push_all(out: &mut Vec<u8>, s: &[u8], from: usize, to: usize)
    requires
        from <= to <= s@.len(),
    ensures
        final(out)@ == old(out)@ + s@.subrange(from as int, to as int),
{
    let mut i = from;
    while i < to
        invariant
            from <= i <= to,
            to <= s@.len(),
            out@ == old(out)@ + s@.subrange(from as int, i as int),
        decreases to - i,
    {
        out.push(s[i]);
        assert(s@.subrange(from as int, i + 1) =~= s@.subrange(from as int, i as int).push(s@[i as int]));
        i += 1;
    }
    assert(s@.subrange(from as int, from as int) =~= Seq::<u8>::empty());
}

/// The bytes of `s` from `from` up to `to` with `to_bytes` in each place
/// where `from_bytes` stands.
pub fn replace(s: &[u8], from: usize, to: usize, from_bytes: &[u8], to_bytes: &[u8]) -> (r: Vec<u8>)
    requires
        from <= to <= s@.len(),
    ensures
        r@ == replaced(s@.subrange(from as int, to as int), from_bytes@, to_bytes@),
{
    let n = from_bytes.len();
    let mut out: Vec<u8> = Vec::new();
    let ghost whole = s@.subrange(from as int, to as int);
    if n == 0 {
        push_all(&mut out, s, from, to);
        return out;
    }
    let mut i = from;
    while i < to
        invariant
            from <= i <= to,
            to <= s@.len(),
            n == from_bytes@.len(),
            n > 0,
            replaced(s@.subrange(from as int, to as int), from_bytes@, to_bytes@) == out@ + replaced(
                s@.subrange(i as int, to as int),
                from_bytes@,
                to_bytes@,
            ),
        decreases to - i,
    {
        let ghost rest = s@.subrange(i as int, to as int);
        let ghost before = out@;
        if stands_at(s, i, to, from_bytes) {
            append(&mut out, to_bytes);
            assert(rest.skip(n as int) =~= s@.subrange(i + n, to as int));
            assert(before + (to_bytes@ + replaced(rest.skip(n as int), from_bytes@, to_bytes@)) =~= (before
                + to_bytes@) + replaced(rest.skip(n as int), from_bytes@, to_bytes@));
            i += n;
        } else {
            out.push(s[i]);
            assert(rest.skip(1) =~= s@.subrange(i + 1, to as int));
            assert(rest[0] == s@[i as int]);
            proof {
                if rest.len() < n {
                    assert(seq![rest[0]] + rest.skip(1) =~= rest);
                }
            }
            assert(before + (seq![rest[0]] + replaced(rest.skip(1), from_bytes@, to_bytes@)) =~= before.push(
                rest[0],
            ) + replaced(rest.skip(1), from_bytes@, to_bytes@));
            i += 1;
        }
    }
    assert(s@.subrange(to as int, to as int) =~= Seq::<u8>::empty());
    assert(out@ + Seq::<u8>::empty() =~= out@);
    out
}

/// The bounds of the pieces of `s`, from `from` up to `to`, between the
/// places where `sep` stands.
pub fn split_bounds(s: &[u8], from: usize, to: usize, sep: &[u8]) -> (r: Vec<(usize, usize)>)
    requires
        from <= to <= s@.len(),
    ensures
        r@.len() == split(s@.subrange(from as int, to as int), sep@).len(),
        forall|k: int| 0 <= k < r@.len() ==> from <= (#[trigger] r@[k]).0 <= r@[k].1 <= to,
        forall|k: int| 0 <= k < r@.len() ==> s@.subrange((#[trigger] r@[k]).0 as int, r@[k].1 as int) == split(
            s@.subrange(from as int, to as int),
            sep@,
        )[k],
{
    let n = sep.len();
    let mut bounds: Vec<(usize, usize)> = Vec::new();
    let ghost whole = s@.subrange(from as int, to as int);
    if n == 0 {
        bounds.push((from, to));
        return bounds;
    }
    let mut i = from;
    let ghost mut done: Seq<Seq<u8>> = Seq::empty();
    assert(done + split(s@.subrange(i as int, to as int), sep@) =~= split(whole, sep@));
    loop
        invariant_except_break
            split(whole, sep@) == done + split(s@.subrange(i as int, to as int), sep@),
        invariant
            from <= i <= to,
            to <= s@.len(),
            n == sep@.len(),
            n > 0,
            whole == s@.subrange(from as int, to as int),
            bounds@.len() == done.len(),
            forall|k: int| 0 <= k < bounds@.len() ==> from <= (#[trigger] bounds@[k]).0 <= bounds@[k].1 <= to,
            forall|k: int| 0 <= k < bounds@.len() ==> s@.subrange((#[trigger] bounds@[k]).0 as int, bounds@[k].1 as int)
                == done[k],
        ensures
            bounds@.len() == split(whole, sep@).len(),
            forall|k: int| 0 <= k < bounds@.len() ==> from <= (#[trigger] bounds@[k]).0 <= bounds@[k].1 <= to,
            forall|k: int| 0 <= k < bounds@.len() ==> s@.subrange((#[trigger] bounds@[k]).0 as int, bounds@[k].1 as int)
                == split(whole, sep@)[k],
        decreases to - i,
    {
        let ghost rest = s@.subrange(i as int, to as int);
        let ghost old_bounds = bounds@;
        match find(s, i, to, sep) {
            Some(p) => {
                bounds.push((i, p));
                proof {
                    let piece = rest.take(p - i);
                    assert(piece =~= s@.subrange(i as int, p as int));
                    assert(rest.skip(p - i + n) =~= s@.subrange(p + n, to as int));
                    let tail = split(s@.subrange(p + n, to as int), sep@);
                    assert(done + (seq![piece] + tail) =~= done.push(piece) + tail);
                    done = done.push(piece);
                }
                i = p + n;
            },
            None => {
                bounds.push((i, to));
                proof {
                    done = done.push(rest);
                    assert(split(whole, sep@) =~= done);
                }
                break;
            },
        }
    }
    bounds
}

/// Adds the bytes of `s` at the end of `out`.
pub fn append(out: &mut Vec<u8>, s: &[u8])
    ensures
        final(out)@ == old(out)@ + s@,
{
    push_all(out, s, 0, s.len());
    assert(s@.subrange(0, s@.len() as int) =~= s@);
}

/// Adds `field` to the row `out`, after a `sep` unless it is the first.
pub fn push_field(out: &mut Vec<u8>, first: bool, sep: u8, field: &[u8])
    ensures
        final(out)@ == if first {
            old(out)@ + field@
        } else {
            old(out)@.push(sep) + field@
        },
{
    if !first {
        out.push(sep);
    }
    append(out, field);
}

} // verus!
