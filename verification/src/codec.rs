//! Byte-level building blocks of the CSV codec: decimal numbers, separator
//! splitting and joining, and line structure. Both CSV formats of the console
//! (the rule file it writes and the connection table it reads) are plain:
//! fields never contain the separator, so no quoting or escaping exists.

use vstd::prelude::*;

verus! {

pub const COMMA: u8 = 44;

pub const LF: u8 = 10;

pub const CR: u8 = 13;

pub open spec fn is_digit(b: u8) -> bool {
    48 <= b <= 57
}

pub open spec fn all_digits(s: Seq<u8>) -> bool {
    forall|i: int| 0 <= i < s.len() ==> is_digit(#[trigger] s[i])
}

/// The canonical decimal digits of `n`, most significant first, with no
/// leading zero (and the single digit `0` for zero).
pub open spec fn dec_digits(n: nat) -> Seq<u8>
    decreases n,
{
    if n < 10 {
        seq![(n + 48) as u8]
    } else {
        dec_digits(n / 10).push((n % 10 + 48) as u8)
    }
}

/// The numeric value of a digit string, most significant first.
pub open spec fn digits_val(s: Seq<u8>) -> int
    decreases s.len(),
{
    if s.len() == 0 {
        0
    } else {
        digits_val(s.drop_last()) * 10 + (s.last() - 48)
    }
}

/// A field parses as a number bounded by `max` when it is a nonempty string
/// of decimal digits whose value fits. Leading zeroes are accepted.
pub open spec fn num_ok(s: Seq<u8>, max: int) -> bool {
    s.len() >= 1 && all_digits(s) && digits_val(s) <= max
}

pub proof fn lemma_digits_val_nonneg(s: Seq<u8>)
    requires
        all_digits(s),
    ensures
        digits_val(s) >= 0,
    decreases s.len(),
{
    if s.len() > 0 {
        assert(all_digits(s.drop_last()));
        lemma_digits_val_nonneg(s.drop_last());
    }
}

/// Extending a digit string on the right never decreases its value.
pub proof fn lemma_digits_val_prefix(s: Seq<u8>, i: int)
    requires
        all_digits(s),
        0 <= i <= s.len(),
    ensures
        digits_val(s.take(i)) <= digits_val(s),
    decreases s.len() - i,
{
    if i < s.len() {
        let t = s.take(i + 1);
        assert(all_digits(t));
        assert(t.drop_last() =~= s.take(i));
        lemma_digits_val_nonneg(s.take(i));
        lemma_digits_val_prefix(s, i + 1);
        assert(s.take(s.len() as int) =~= s);
    } else {
        assert(s.take(i) =~= s);
    }
}

/// The canonical digits of `n` are digits and evaluate back to `n`.
pub proof fn lemma_dec_digits(n: nat)
    ensures
        dec_digits(n).len() >= 1,
        all_digits(dec_digits(n)),
        digits_val(dec_digits(n)) == n,
    decreases n,
{
    if n < 10 {
        assert(digits_val(Seq::<u8>::empty()) == 0);
        assert(dec_digits(n).drop_last() =~= Seq::<u8>::empty());
        assert(dec_digits(n).last() == (n + 48) as u8);
    } else {
        lemma_dec_digits(n / 10);
        let d = dec_digits(n / 10);
        assert(d.push((n % 10 + 48) as u8).drop_last() =~= d);
        assert(digits_val(dec_digits(n)) == (n / 10) * 10 + n % 10);
        assert((n / 10) * 10 + n % 10 == n) by {
            vstd::arithmetic::div_mod::lemma_fundamental_div_mod(n as int, 10);
        }
    }
}

/// Appends the canonical decimal digits of `n` to `out`.
pub fn push_dec(n: u64, out: &mut Vec<u8>)
    ensures
        final(out)@ == old(out)@ + dec_digits(n as nat),
    decreases n,
{
    if n < 10 {
        out.push((n + 48) as u8);
        assert(out@ =~= old(out)@ + dec_digits(n as nat));
    } else {
        push_dec(n / 10, out);
        out.push((n % 10 + 48) as u8);
        assert(out@ =~= old(out)@ + dec_digits(n as nat));
    }
}

/// Parses a bounded decimal number. Returns the value exactly when the field
/// is a nonempty digit string whose value is at most `max`.
pub fn parse_num(s: &[u8], max: u64) -> (r: Option<u64>)
    requires
        max <= 0xFFFF_FFFF,
    ensures
        match r {
            Some(v) => num_ok(s@, max as int) && v == digits_val(s@),
            None => !num_ok(s@, max as int),
        },
{
    if s.len() == 0 {
        return None;
    }
    let mut acc: u64 = 0;
    let mut i: usize = 0;
    while i < s.len()
        invariant
            0 <= i <= s@.len(),
            max <= 0xFFFF_FFFF,
            acc <= max,
            all_digits(s@.take(i as int)),
            acc == digits_val(s@.take(i as int)),
        decreases s@.len() - i,
    {
        let b = *vstd::slice::slice_index_get(s, i);
        proof {
            assert(s@.take(i + 1).drop_last() =~= s@.take(i as int));
        }
        if b < 48 || b > 57 {
            proof {
                assert(s@[i as int] == b);
                assert(!is_digit(s@[i as int]));
            }
            return None;
        }
        let d: u64 = (b - 48) as u64;
        let next: u64 = acc * 10 + d;
        proof {
            assert(all_digits(s@.take(i + 1)));
            assert(digits_val(s@.take(i + 1)) == acc * 10 + d);
        }
        if next > max {
            proof {
                if all_digits(s@) {
                    lemma_digits_val_prefix(s@, i + 1);
                }
            }
            return None;
        }
        acc = next;
        i = i + 1;
    }
    proof {
        assert(s@.take(s@.len() as int) =~= s@);
    }
    Some(acc)
}

/// True when `b` occurs nowhere in `s`.
pub open spec fn free_of(s: Seq<u8>, b: u8) -> bool {
    forall|i: int| 0 <= i < s.len() ==> s[i] != b
}

/// Splits `s` at every occurrence of `sep`. Always yields at least one
/// segment; an empty input yields one empty segment.
pub open spec fn split_bytes(s: Seq<u8>, sep: u8) -> Seq<Seq<u8>>
    decreases s.len(),
{
    if s.len() == 0 {
        seq![Seq::<u8>::empty()]
    } else if s[0] == sep {
        seq![Seq::<u8>::empty()] + split_bytes(s.drop_first(), sep)
    } else {
        let rest = split_bytes(s.drop_first(), sep);
        seq![seq![s[0]] + rest[0]] + rest.drop_first()
    }
}

/// Joins segments with a single `sep` between neighbours.
pub open spec fn join_bytes(parts: Seq<Seq<u8>>, sep: u8) -> Seq<u8>
    decreases parts.len(),
{
    if parts.len() == 0 {
        Seq::<u8>::empty()
    } else if parts.len() == 1 {
        parts[0]
    } else {
        parts[0] + seq![sep] + join_bytes(parts.drop_first(), sep)
    }
}

pub proof fn lemma_split_len(s: Seq<u8>, sep: u8)
    ensures
        split_bytes(s, sep).len() >= 1,
    decreases s.len(),
{
    if s.len() > 0 {
        lemma_split_len(s.drop_first(), sep);
    }
}

/// A separator-free string splits into itself alone.
pub proof fn lemma_split_free(s: Seq<u8>, sep: u8)
    requires
        free_of(s, sep),
    ensures
        split_bytes(s, sep) =~~= seq![s],
    decreases s.len(),
{
    if s.len() > 0 {
        assert(free_of(s.drop_first(), sep));
        lemma_split_free(s.drop_first(), sep);
        assert(seq![s[0]] + s.drop_first() =~= s);
    }
}

/// Splitting a string whose first segment `x` is separator-free peels `x` off.
pub proof fn lemma_split_concat(x: Seq<u8>, y: Seq<u8>, sep: u8)
    requires
        free_of(x, sep),
    ensures
        split_bytes(x + seq![sep] + y, sep) =~~= seq![x] + split_bytes(y, sep),
    decreases x.len(),
{
    let s = x + seq![sep] + y;
    if x.len() == 0 {
        assert(s =~= seq![sep] + y);
        assert(s[0] == sep);
        assert(s.drop_first() =~= y);
    } else {
        assert(free_of(x.drop_first(), sep));
        lemma_split_concat(x.drop_first(), y, sep);
        assert(s[0] == x[0]);
        assert(s[0] != sep);
        assert(s.drop_first() =~= x.drop_first() + seq![sep] + y);
        lemma_split_len(y, sep);
        let rest = split_bytes(s.drop_first(), sep);
        assert(rest =~~= seq![x.drop_first()] + split_bytes(y, sep));
        assert(rest[0] =~= x.drop_first());
        assert(seq![s[0]] + rest[0] =~= x);
        assert(rest.drop_first() =~= split_bytes(y, sep));
    }
}

/// Splitting undoes joining when every segment is separator-free.
pub proof fn lemma_split_join(parts: Seq<Seq<u8>>, sep: u8)
    requires
        parts.len() >= 1,
        forall|i: int| 0 <= i < parts.len() ==> free_of(#[trigger] parts[i], sep),
    ensures
        split_bytes(join_bytes(parts, sep), sep) =~~= parts,
    decreases parts.len(),
{
    if parts.len() == 1 {
        lemma_split_free(parts[0], sep);
    } else {
        assert(forall|i: int|
            0 <= i < parts.drop_first().len() ==> free_of(
                #[trigger] parts.drop_first()[i],
                sep,
            ));
        lemma_split_join(parts.drop_first(), sep);
        lemma_split_concat(parts[0], join_bytes(parts.drop_first(), sep), sep);
    }
}

/// The lines of a byte buffer: segments between line feeds, where a final
/// line feed terminates the last line rather than opening an empty one.
pub open spec fn lines_of(c: Seq<u8>) -> Seq<Seq<u8>> {
    if c.len() == 0 {
        Seq::<Seq<u8>>::empty()
    } else if c.last() == LF {
        split_bytes(c.drop_last(), LF)
    } else {
        split_bytes(c, LF)
    }
}

proof fn lemma_deep_view_push(v: Vec<Vec<u8>>, w: Vec<Vec<u8>>, x: Vec<u8>)
    requires
        w@ == v@.push(x),
    ensures
        w.deep_view() =~~= v.deep_view().push(x@),
{
    assert(x.deep_view() =~= x@);
}

/// Whether `b` occurs in `s`.
pub fn contains_byte(s: &[u8], b: u8) -> (r: bool)
    ensures
        r == !free_of(s@, b),
{
    let mut i: usize = 0;
    while i < s.len()
        invariant
            0 <= i <= s@.len(),
            forall|j: int| 0 <= j < i ==> s@[j] != b,
        decreases s@.len() - i,
    {
        if *vstd::slice::slice_index_get(s, i) == b {
            return true;
        }
        i = i + 1;
    }
    false
}

/// Whether two byte strings hold the same bytes.
pub fn bytes_eq(a: &[u8], b: &[u8]) -> (r: bool)
    ensures
        r == (a@ =~= b@),
{
    if a.len() != b.len() {
        return false;
    }
    let mut i: usize = 0;
    while i < a.len()
        invariant
            0 <= i <= a@.len(),
            a@.len() == b@.len(),
            forall|j: int| 0 <= j < i ==> a@[j] == b@[j],
        decreases a@.len() - i,
    {
        if *vstd::slice::slice_index_get(a, i) != *vstd::slice::slice_index_get(b, i) {
            return false;
        }
        i = i + 1;
    }
    true
}

/// Splits a byte string at every occurrence of `sep`, as `split_bytes` says.
pub fn split_vec(s: &[u8], sep: u8) -> (r: Vec<Vec<u8>>)
    ensures
        r.deep_view() =~~= split_bytes(s@, sep),
{
    let ghost whole = split_bytes(s@, sep);
    let mut done: Vec<Vec<u8>> = Vec::new();
    let mut cur: Vec<u8> = Vec::new();
    let mut i: usize = 0;
    proof {
        lemma_split_len(s@, sep);
        assert(s@.skip(0) =~= s@);
        assert(prepend_first(Seq::<u8>::empty(), split_bytes(s@, sep)) =~~= split_bytes(s@, sep));
    }
    while i < s.len()
        invariant
            0 <= i <= s@.len(),
            whole == split_bytes(s@, sep),
            whole =~~= done.deep_view() + prepend_first(cur@, split_bytes(s@.skip(i as int), sep)),
        decreases s@.len() - i,
    {
        let b = *vstd::slice::slice_index_get(s, i);
        proof {
            let rem = s@.skip(i as int);
            assert(rem.len() > 0);
            assert(rem[0] == s@[i as int]);
            assert(rem.drop_first() =~= s@.skip(i + 1));
            lemma_split_len(s@.skip(i + 1), sep);
        }
        if b == sep {
            let ghost done0 = done;
            let ghost cur0 = cur;
            done.push(cur);
            cur = Vec::new();
            i = i + 1;
            proof {
                lemma_deep_view_push(done0, done, cur0);
                assert(prepend_first(cur0@, split_bytes(s@.skip(i - 1), sep)) =~~= seq![cur0@]
                    + split_bytes(s@.skip(i as int), sep));
                assert(prepend_first(Seq::<u8>::empty(), split_bytes(s@.skip(i as int), sep))
                    =~~= split_bytes(s@.skip(i as int), sep));
                assert(done.deep_view() + split_bytes(s@.skip(i as int), sep) =~~= done0.deep_view()
                    + (seq![cur0@] + split_bytes(s@.skip(i as int), sep)));
            }
        } else {
            let ghost cur0 = cur;
            cur.push(b);
            i = i + 1;
            proof {
                let rest = split_bytes(s@.skip(i as int), sep);
                assert(split_bytes(s@.skip(i - 1), sep) =~~= seq![seq![b] + rest[0]]
                    + rest.drop_first());
                assert(cur0@ + (seq![b] + rest[0]) =~= cur@ + rest[0]);
                assert(prepend_first(cur0@, split_bytes(s@.skip(i - 1), sep)) =~~= prepend_first(
                    cur@,
                    rest,
                ));
            }
        }
    }
    proof {
        assert(s@.skip(s@.len() as int) =~= Seq::<u8>::empty());
        assert(prepend_first(cur@, split_bytes(Seq::<u8>::empty(), sep)) =~~= seq![cur@]);
    }
    let ghost done1 = done;
    let ghost cur1 = cur;
    done.push(cur);
    proof {
        lemma_deep_view_push(done1, done, cur1);
        assert(done.deep_view() =~~= done1.deep_view() + seq![cur1@]);
    }
    done
}

/// `parts` with `p` glued onto the front of its first segment. Helper for
/// reasoning about a split in progress.
pub open spec fn prepend_first(p: Seq<u8>, parts: Seq<Seq<u8>>) -> Seq<Seq<u8>> {
    seq![p + parts[0]] + parts.drop_first()
}

/// The lines of a byte string, as `lines_of` says.
pub fn lines_vec(c: &[u8]) -> (r: Vec<Vec<u8>>)
    ensures
        r.deep_view() =~~= lines_of(c@),
{
    if c.len() == 0 {
        Vec::new()
    } else if *vstd::slice::slice_index_get(c, c.len() - 1) == LF {
        let body = vstd::slice::slice_subrange(c, 0, c.len() - 1);
        proof {
            assert(body@ =~= c@.drop_last());
        }
        split_vec(body, LF)
    } else {
        split_vec(c, LF)
    }
}

} // verus!
