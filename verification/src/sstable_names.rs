//! SSTable file names: `L<level>_<counter>.sst`, and the counter a reopened
//! database continues from.

use vstd::prelude::*;
use crate::codec::copy_range;

verus! {

/// Whether `i` is the first position of byte `c` in `s`.
pub open spec fn is_first(s: Seq<u8>, c: u8, i: int) -> bool {
    &&& 0 <= i < s.len()
    &&& s[i] == c
    &&& forall|t: int| 0 <= t < i ==> s[t] != c
}

/// The first position of byte `c` in `s`, if any.
pub open spec fn find_byte(s: Seq<u8>, c: u8) -> Option<int> {
    if exists|i: int| is_first(s, c, i) {
        Some(choose|i: int| is_first(s, c, i))
    } else {
        None
    }
}

/// Whether every byte is an ASCII digit.
pub open spec fn all_digits(d: Seq<u8>) -> bool {
    forall|i: int| 0 <= i < d.len() ==> 48 <= #[trigger] d[i] <= 57
}

/// The number a string of ASCII digits writes in decimal.
pub open spec fn decimal_value(d: Seq<u8>) -> int
    decreases d.len(),
{
    if d.len() == 0 {
        0
    } else {
        decimal_value(d.drop_last()) * 10 + (d.last() - 48)
    }
}

/// What `str::parse::<u64>` gives for a string: an optional `+`, then one
/// or more ASCII digits whose value fits in a `u64`.
pub open spec fn parse_u64(s: Seq<u8>) -> Option<u64> {
    let d = if s.len() > 0 && s[0] == 43 { s.drop_first() } else { s };
    if d.len() > 0 && all_digits(d) && decimal_value(d) <= u64::MAX {
        Some(decimal_value(d) as u64)
    } else {
        None
    }
}

/// The second `_`-separated piece of `s`, if `s` holds a `_`.
pub open spec fn second_piece(s: Seq<u8>) -> Option<Seq<u8>> {
    match find_byte(s, 95) {
        None => None,
        Some(i) => {
            let after = s.skip(i + 1);
            match find_byte(after, 95) {
                Some(j) => Some(after.take(j)),
                None => Some(after),
            }
        },
    }
}

/// The bytes of `.sst`.
pub open spec fn sst_suffix() -> Seq<u8> {
    seq![46u8, 115u8, 115u8, 116u8]
}

/// The counter an SSTable file name records: after a leading `L`, the
/// second `_`-separated piece, which must end in `.sst` and hold a `u64`
/// before it (the name `L0_000123.sst` records 123).
pub open spec fn counter_of_name(name: Seq<u8>) -> Option<u64> {
    if name.len() == 0 || name[0] != 76 {
        None
    } else {
        match second_piece(name.drop_first()) {
            None => None,
            Some(p) => if p.len() >= 4 && p.skip(p.len() - 4) == sst_suffix() {
                parse_u64(p.take(p.len() - 4))
            } else {
                None
            },
        }
    }
}

/// The largest counter that the names record, or 0 when none does.
pub open spec fn max_counter(names: Seq<Seq<u8>>) -> u64
    decreases names.len(),
{
    if names.len() == 0 {
        0
    } else {
        let rest = max_counter(names.drop_last());
        match counter_of_name(names.last()) {
            Some(c) => if c > rest { c } else { rest },
            None => rest,
        }
    }
}

/// Lemma: the value of a digit string is at least that of its prefixes.
proof fn lemma_decimal_prefix(d: Seq<u8>, i: int)
    requires
        all_digits(d),
        0 <= i <= d.len(),
    ensures
        decimal_value(d.take(i)) <= decimal_value(d),
        decimal_value(d) >= 0,
    decreases d.len(),
{
    if d.len() > 0 {
        let p = d.drop_last();
        assert(all_digits(p));
        if i == d.len() {
            assert(d.take(i) =~= d);
            lemma_decimal_prefix(p, 0);
        } else {
            assert(d.take(i) =~= p.take(i));
            lemma_decimal_prefix(p, i);
        }
    } else {
        assert(d.take(i) =~= d);
    }
}

/// Finds the first position of byte `c`, as `find_byte` states.
fn find_byte_in(s: &[u8], c: u8) -> (r: Option<usize>)
    ensures
        match r {
            Some(i) => find_byte(s@, c) == Some(i as int),
            None => find_byte(s@, c) is None,
        },
{
    let mut i: usize = 0;
    while i < s.len()
        invariant
            i <= s@.len(),
            forall|t: int| 0 <= t < i ==> s@[t] != c,
        decreases s@.len() - i,
    {
        if s[i] == c {
            proof {
                assert(is_first(s@, c, i as int));
                let j = choose|j: int| is_first(s@, c, j);
                assert(j == i);
            }
            return Some(i);
        }
        i = i + 1;
    }
    None
}

/// Parses a `u64` as `str::parse` does, as `parse_u64` states.
pub fn parse_decimal_u64(s: &[u8]) -> (r: Option<u64>)
    ensures
        r == parse_u64(s@),
{
    let start: usize = if s.len() > 0 && s[0] == 43 { 1 } else { 0 };
    let ghost d = if s@.len() > 0 && s@[0] == 43 { s@.drop_first() } else { s@ };
    proof {
        assert(d =~= s@.skip(start as int));
    }
    if start >= s.len() {
        return None;
    }
    let mut acc: u64 = 0;
    let mut i: usize = start;
    proof {
        assert(d.take(0) =~= Seq::<u8>::empty());
    }
    while i < s.len()
        invariant
            start <= i <= s@.len(),
            d == s@.skip(start as int),
            d == (if s@.len() > 0 && s@[0] == 43 { s@.drop_first() } else { s@ }),
            d.len() > 0,
            all_digits(d.take(i - start)),
            acc == decimal_value(d.take(i - start)),
        decreases s@.len() - i,
    {
        let b = s[i];
        let ghost k = i - start;
        proof {
            assert(d[k] == b);
            assert(d.take(k + 1).drop_last() =~= d.take(k));
            assert(d.take(k + 1).last() == b);
        }
        if b < 48 || b > 57 {
            proof {
                assert(!(48 <= d[k] <= 57));
                assert(!all_digits(d));
                assert(parse_u64(s@) is None);
            }
            return None;
        }
        let digit = (b - 48) as u64;
        if acc > (u64::MAX - digit) / 10 {
            proof {
                assert(all_digits(d.take(k + 1)));
                assert(decimal_value(d.take(k + 1)) > u64::MAX) by (nonlinear_arith)
                    requires
                        decimal_value(d.take(k + 1)) == acc * 10 + digit,
                        acc > (u64::MAX - digit) / 10,
                        digit <= 9,
                ;
                if all_digits(d) {
                    lemma_decimal_prefix(d, k + 1);
                    assert(decimal_value(d) > u64::MAX);
                }
                assert(parse_u64(s@) is None);
            }
            return None;
        }
        proof {
            assert(acc * 10 + digit <= u64::MAX) by (nonlinear_arith)
                requires
                    acc <= (u64::MAX - digit) / 10,
                    digit <= 9,
            ;
            assert forall|t: int| 0 <= t < k + 1 implies 48 <= #[trigger] d.take(k + 1)[t] <= 57 by {
                if t < k {
                    assert(d.take(k + 1)[t] == d.take(k)[t]);
                }
            }
        }
        acc = acc * 10 + digit;
        i = i + 1;
    }
    proof {
        assert(d.take(i - start) =~= d);
    }
    Some(acc)
}

/// The counter an SSTable file name records, as `counter_of_name` states.
pub fn sstable_counter_of(name: &[u8]) -> (r: Option<u64>)
    ensures
        r == counter_of_name(name@),
{
    if name.len() == 0 || name[0] != 76 {
        return None;
    }
    let rest_v = copy_range(name, 1, name.len());
    let rest = rest_v.as_slice();
    proof {
        assert(rest@ =~= name@.drop_first());
    }
    let i = match find_byte_in(rest, 95) {
        None => {
            return None;
        },
        Some(i) => i,
    };
    let after_v = copy_range(rest, i + 1, rest.len());
    let after = after_v.as_slice();
    proof {
        assert(after@ =~= rest@.skip(i + 1));
    }
    let piece_v = match find_byte_in(after, 95) {
        Some(j) => {
            let p = copy_range(after, 0, j);
            proof {
                assert(p@ =~= after@.take(j as int));
            }
            p
        },
        None => {
            let p = copy_range(after, 0, after.len());
            proof {
                assert(p@ =~= after@);
            }
            p
        },
    };
    let piece = piece_v.as_slice();
    let n = piece.len();
    if n < 4 || piece[n - 4] != 46 || piece[n - 3] != 115 || piece[n - 2] != 115 || piece[n - 1] != 116 {
        proof {
            if n >= 4 && piece@.skip(n - 4) == sst_suffix() {
                assert(piece@.skip(n - 4)[0] == piece@[n - 4]);
                assert(piece@.skip(n - 4)[1] == piece@[n - 3]);
                assert(piece@.skip(n - 4)[2] == piece@[n - 2]);
                assert(piece@.skip(n - 4)[3] == piece@[n - 1]);
            }
        }
        return None;
    }
    proof {
        assert(piece@.skip(n - 4) =~= sst_suffix());
    }
    let digits = copy_range(piece, 0, n - 4);
    proof {
        assert(digits@ =~= piece@.take(n - 4));
    }
    parse_decimal_u64(digits.as_slice())
}

/// The largest counter that SSTable file names record, 0 when none does, as
/// `max_counter` states.
pub fn max_sstable_counter(names: &[Vec<u8>]) -> (r: u64)
    ensures
        r == max_counter(names@.map_values(|n: Vec<u8>| n@)),
{
    let ghost nv = names@.map_values(|n: Vec<u8>| n@);
    let mut best: u64 = 0;
    let mut i: usize = 0;
    proof {
        assert(nv.take(0) =~= Seq::<Seq<u8>>::empty());
    }
    while i < names.len()
        invariant
            i <= names@.len(),
            nv == names@.map_values(|n: Vec<u8>| n@),
            best == max_counter(nv.take(i as int)),
        decreases names@.len() - i,
    {
        proof {
            assert(nv.take(i + 1).drop_last() =~= nv.take(i as int));
            assert(nv.take(i + 1).last() == names@[i as int]@);
        }
        match sstable_counter_of(names[i].as_slice()) {
            Some(c) => {
                if c > best {
                    best = c;
                }
            },
            None => {},
        }
        i = i + 1;
    }
    proof {
        assert(nv.take(names@.len() as int) =~= nv);
    }
    best
}

/// The counter a reopened database gives its next SSTable: one past the
/// largest counter the existing names record. `None` when that is
/// `u64::MAX`, where the next counter does not exist.
pub fn next_sstable_counter(names: &[Vec<u8>]) -> (r: Option<u64>)
    ensures
        max_counter(names@.map_values(|n: Vec<u8>| n@)) < u64::MAX ==> r == Some(
            (max_counter(names@.map_values(|n: Vec<u8>| n@)) + 1) as u64,
        ),
        max_counter(names@.map_values(|n: Vec<u8>| n@)) == u64::MAX ==> r is None,
{
    let m = max_sstable_counter(names);
    m.checked_add(1)
}

} // verus!
