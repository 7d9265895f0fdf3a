//! A bus master that writes what it likes into a driver's DMA memory, for
//! test builds that stand for hostile hardware.
//!
//! What it knows is bytes, not devices. A rule is a routed delivery number,
//! a byte offset into the DMA region of the assignment that delivery came
//! from, a byte, and a count: `DELIVERY:OFFSET:BYTE[:COUNT]`, rules separated
//! by commas, every number decimal. What is here is which writes a rule list
//! asks for at one delivery; making them is the caller's.
use vstd::prelude::*;

verus! {

/// The pieces of `s` between separators, in order: `n` separators give
/// `n + 1` pieces, empty ones included.
pub open spec fn pieces(s: Seq<u8>, sep: u8) -> Seq<Seq<u8>>
    decreases s.len(),
{
    if s.len() == 0 {
        seq![Seq::empty()]
    } else {
        let p = pieces(s.drop_last(), sep);
        if s.last() == sep {
            p.push(Seq::empty())
        } else {
            p.update(p.len() - 1, p.last().push(s.last()))
        }
    }
}

/// There is always at least one piece.
proof fn lemma_pieces_nonempty(s: Seq<u8>, sep: u8)
    ensures
        pieces(s, sep).len() >= 1,
    decreases s.len(),
{
    if s.len() > 0 {
        lemma_pieces_nonempty(s.drop_last(), sep);
    }
}

/// Whether every byte is a decimal digit.
pub open spec fn all_digits(s: Seq<u8>) -> bool {
    forall|i: int| 0 <= i < s.len() ==> 48 <= #[trigger] s[i] <= 57
}

/// The number decimal digits spell.
pub open spec fn digits_value(s: Seq<u8>) -> int
    decreases s.len(),
{
    if s.len() == 0 {
        0
    } else {
        digits_value(s.drop_last()) * 10 + (s.last() - 48)
    }
}

/// A decimal field as an unsigned 64-bit number is read: an optional `+`,
/// then at least one digit and nothing else, and no more than fits.
pub open spec fn decimal(s: Seq<u8>) -> Option<u64> {
    let d = if s.len() > 0 && s[0] == 43 { s.drop_first() } else { s };
    if d.len() == 0 || !all_digits(d) || digits_value(d) > u64::MAX {
        None
    } else {
        Some(digits_value(d) as u64)
    }
}

/// One write a rule asks for: where in the region, which byte, how many.
#[derive(Clone, Copy, Debug, PartialEq, Eq, Structural)]
pub struct HostileWrite {
    pub offset: u64,
    pub byte: u8,
    pub count: u64,
}

/// The write one rule asks for at delivery `delivery`, if any: its first
/// three fields must read as numbers, a fourth that does not read is a count
/// of one, and a rule for another delivery, a byte that is not one, or a
/// count of zero asks for nothing.
pub open spec fn rule_write(rule: Seq<u8>, delivery: u32) -> Option<HostileWrite> {
    let f = pieces(rule, 58);
    if f.len() < 3 || decimal(f[0]) is None || decimal(f[1]) is None || decimal(f[2]) is None {
        None
    } else {
        let count = if f.len() >= 4 && decimal(f[3]) is Some { decimal(f[3]).unwrap() } else { 1 };
        let at = decimal(f[0]).unwrap();
        let byte = decimal(f[2]).unwrap();
        if at != delivery || byte > 255 || count == 0 {
            None
        } else {
            Some(HostileWrite { offset: decimal(f[1]).unwrap(), byte: byte as u8, count })
        }
    }
}

/// The writes the first `n` rules ask for at one delivery, in rule order.
pub open spec fn writes_for(rules: Seq<Seq<u8>>, delivery: u32, n: int) -> Seq<HostileWrite>
    decreases n,
{
    if n <= 0 {
        Seq::empty()
    } else {
        let earlier = writes_for(rules, delivery, n - 1);
        match rule_write(rules[n - 1], delivery) {
            Some(w) => earlier.push(w),
            None => earlier,
        }
    }
}

/// The pieces of a byte string between separators.
fn split(s: &[u8], sep: u8) -> (v: Vec<Vec<u8>>)
    ensures
        v@.map_values(|p: Vec<u8>| p@) == pieces(s@, sep),
{
    let mut done: Vec<Vec<u8>> = Vec::new();
    let mut current: Vec<u8> = Vec::new();
    let mut i: usize = 0;
    while i < s.len()
        invariant
            i <= s.len(),
            done@.map_values(|p: Vec<u8>| p@).push(current@) == pieces(s@.take(i as int), sep),
        decreases s.len() - i,
    {
        let ghost before = done@.map_values(|p: Vec<u8>| p@).push(current@);
        proof {
            assert(s@.take(i + 1).drop_last() =~= s@.take(i as int));
            assert(s@.take(i + 1).last() == s@[i as int]);
        }
        if s[i] == sep {
            let finished = current;
            done.push(finished);
            current = Vec::new();
            proof {
                assert(done@.map_values(|p: Vec<u8>| p@).push(current@) =~= before.push(Seq::empty()));
            }
        } else {
            current.push(s[i]);
            proof {
                assert(done@.map_values(|p: Vec<u8>| p@).push(current@) =~= before.update(
                    before.len() - 1,
                    before.last().push(s@[i as int]),
                ));
            }
        }
        i = i + 1;
    }
    proof {
        assert(s@.take(s.len() as int) =~= s@);
    }
    done.push(current);
    proof {
        assert(done@.map_values(|p: Vec<u8>| p@) =~= pieces(s@, sep));
    }
    done
}

/// Reads a decimal field, or nothing when it is not one.
fn read_decimal(s: &[u8]) -> (r: Option<u64>)
    ensures
        r == decimal(s@),
{
    let start: usize = if s.len() > 0 && s[0] == 43 { 1 } else { 0 };
    let ghost d = if s@.len() > 0 && s@[0] == 43 { s@.drop_first() } else { s@ };
    proof {
        assert(d =~= s@.skip(start as int));
    }
    if start == s.len() {
        return None;
    }
    let mut value: u64 = 0;
    let mut i: usize = start;
    while i < s.len()
        invariant
            start <= i <= s.len(),
            start < s.len(),
            d == s@.skip(start as int),
            d == (if s@.len() > 0 && s@[0] == 43 { s@.drop_first() } else { s@ }),
            all_digits(s@.subrange(start as int, i as int)),
            value == digits_value(s@.subrange(start as int, i as int)),
        decreases s.len() - i,
    {
        let c = s[i];
        proof {
            assert(s@.subrange(start as int, i + 1).drop_last() =~= s@.subrange(start as int, i as int));
        }
        if c < 48 || c > 57 {
            proof {
                assert(d[i - start] == s@[i as int]);
                assert(!(48 <= d[i - start] <= 57));
                assert(!all_digits(d));
            }
            return None;
        }
        let digit = (c - 48) as u64;
        if value > (u64::MAX - digit) / 10 {
            proof {
                assert(digits_value(s@.subrange(start as int, i + 1)) > u64::MAX) by (nonlinear_arith)
                    requires
                        digits_value(s@.subrange(start as int, i + 1)) == value * 10 + digit,
                        value > (u64::MAX - digit) / 10,
                        digit <= 9,
                ;
                if all_digits(d) {
                    lemma_digits_grow(d, i + 1 - start, d.len() as int);
                    assert(d.take(i + 1 - start) =~= s@.subrange(start as int, i + 1));
                    assert(d.take(d.len() as int) =~= d);
                }
            }
            return None;
        }
        proof {
            assert(value * 10 + digit <= u64::MAX) by (nonlinear_arith)
                requires
                    value <= (u64::MAX - digit) / 10,
                    digit <= 9,
            ;
        }
        value = value * 10 + digit;
        i = i + 1;
    }
    proof {
        assert(s@.subrange(start as int, s.len() as int) =~= d);
    }
    Some(value)
}

/// A longer run of digits spells at least as much.
proof fn lemma_digits_grow(d: Seq<u8>, m: int, n: int)
    requires
        0 <= m <= n <= d.len(),
        all_digits(d),
    ensures
        digits_value(d.take(m)) <= digits_value(d.take(n)),
    decreases n - m,
{
    if m < n {
        lemma_digits_grow(d, m, n - 1);
        assert(d.take(n).drop_last() =~= d.take(n - 1));
        lemma_digits_nonnegative(d.take(n - 1));
        assert(d.take(n).last() == d[n - 1]);
        assert(digits_value(d.take(n - 1)) <= digits_value(d.take(n - 1)) * 10 + (d[n - 1] - 48)) by (nonlinear_arith)
            requires
                digits_value(d.take(n - 1)) >= 0,
                48 <= d[n - 1] <= 57,
        ;
    }
}

/// Digits never spell a negative number.
proof fn lemma_digits_nonnegative(d: Seq<u8>)
    requires
        all_digits(d),
    ensures
        digits_value(d) >= 0,
    decreases d.len(),
{
    if d.len() > 0 {
        assert(all_digits(d.drop_last()));
        lemma_digits_nonnegative(d.drop_last());
        assert(48 <= d.last() <= 57);
    }
}

/// The writes a rule list asks for at one routed delivery, in rule order:
/// each rule is `DELIVERY:OFFSET:BYTE[:COUNT]`, and the rules are separated
/// by commas. A rule that does not read asks for nothing.
pub fn hostile_writes(rules: &[u8], delivery: u32) -> (w: Vec<HostileWrite>)
    ensures
        w@ == writes_for(pieces(rules@, 44), delivery, pieces(rules@, 44).len() as int),
{
    let list = split(rules, 44);
    let ghost views = list@.map_values(|p: Vec<u8>| p@);
    let mut out: Vec<HostileWrite> = Vec::new();
    let mut k: usize = 0;
    while k < list.len()
        invariant
            k <= list.len(),
            views == list@.map_values(|p: Vec<u8>| p@),
            views == pieces(rules@, 44),
            out@ == writes_for(views, delivery, k as int),
        decreases list.len() - k,
    {
        let fields = split(list[k].as_slice(), 58);
        let ghost f = fields@.map_values(|p: Vec<u8>| p@);
        proof {
            assert(views[k as int] == list@[k as int]@);
            lemma_pieces_nonempty(list@[k as int]@, 58);
        }
        if fields.len() >= 3 {
            proof {
                assert(f[0] == fields@[0]@ && f[1] == fields@[1]@ && f[2] == fields@[2]@);
            }
            let at = read_decimal(fields[0].as_slice());
            let offset = read_decimal(fields[1].as_slice());
            let byte = read_decimal(fields[2].as_slice());
            if let (Some(at), Some(offset), Some(byte)) = (at, offset, byte) {
                let count = if fields.len() >= 4 {
                    proof {
                        assert(f[3] == fields@[3]@);
                    }
                    match read_decimal(fields[3].as_slice()) {
                        Some(c) => c,
                        None => 1,
                    }
                } else {
                    1
                };
                if at == delivery as u64 && byte <= 255 && count != 0 {
                    out.push(HostileWrite { offset, byte: byte as u8, count });
                }
            }
        }
        k = k + 1;
    }
    out
}

} // verus!
