use vstd::prelude::*;

use crate::resolver::{cand, n_packages, Registry};
use crate::version::same_version;
use crate::version::Version;

verus! {

/// One lowercase hex digit for `d < 16`.
pub open spec fn hex_digit(d: u64) -> u8 {
    if d < 10 {
        (48 + d) as u8
    } else {
        (87 + d) as u8
    }
}

pub open spec fn nibble(n: u64, i: int) -> u64 {
    (n >> ((60 - 4 * i) as u64)) & 15
}

/// `n` as exactly sixteen hex digits, most significant first.
pub open spec fn hex16(n: u64) -> Seq<u8> {
    Seq::new(16, |i: int| hex_digit(nibble(n, i)))
}

fn push_hex16(out: &mut Vec<u8>, n: u64)
    ensures
        final(out)@ == old(out)@ + hex16(n),
{
    let mut i: u64 = 0;
    while i < 16
        invariant
            i <= 16,
            out@ == old(out)@ + hex16(n).take(i as int),
        decreases 16 - i,
    {
        let s: u64 = 60 - 4 * i;
        let d: u64 = (n >> s) & 15;
        assert(d < 16) by (bit_vector)
            requires
                d == (n >> s) & 15,
        ;
        let b: u8 = if d < 10 {
            (48 + d) as u8
        } else {
            (87 + d) as u8
        };
        out.push(b);
        assert(hex16(n).take(i + 1) =~= hex16(n).take(i as int).push(b));
        i = i + 1;
    }
    assert(hex16(n).take(16) =~= hex16(n));
}

fn unhex(b: u8) -> (r: Option<u64>)
    ensures
        r matches Some(d) ==> d < 16 && hex_digit(d) == b,
        forall|d: u64| d < 16 && hex_digit(d) == b ==> r == Some(d),
{
    if 48 <= b && b <= 57 {
        Some((b - 48) as u64)
    } else if 97 <= b && b <= 102 {
        Some((b - 87) as u64)
    } else {
        None
    }
}

proof fn lemma_nibble_step(m: u64, s: u64)
    requires
        s <= 60,
    ensures
        ((m >> (s + 4) as u64) << 4u64) | ((m >> s) & 15) == m >> s,
{
    assert(((m >> (s + 4) as u64) << 4u64) | ((m >> s) & 15) == m >> s) by (bit_vector)
        requires
            s <= 60,
    ;
}

/// Reads sixteen hex digits at `pos`; `None` where they are not the
/// canonical digits of a number.
fn read_hex16(text: &Vec<u8>, pos: usize, Ghost(m): Ghost<u64>) -> (r: Option<u64>)
    ensures
        r matches Some(n) ==> pos + 16 <= text@.len() && text@.subrange(pos as int, pos + 16) == hex16(n),
        pos + 16 <= text@.len() && text@.subrange(pos as int, pos + 16) == hex16(m) ==> r == Some(m),
{
    if pos > text.len() || text.len() - pos < 16 {
        return None;
    }
    let len = text.len();
    let ghost hyp = text@.subrange(pos as int, pos + 16) == hex16(m);
    let mut acc: u64 = 0;
    let mut i: u64 = 0;
    while i < 16
        invariant
            i <= 16,
            pos + 16 <= text@.len(),
            len == text@.len(),
            hyp == (text@.subrange(pos as int, pos + 16) == hex16(m)),
            hyp && i > 0 ==> acc == m >> ((64 - 4 * i) as u64),
            hyp && i == 0 ==> acc == 0,
        decreases 16 - i,
    {
        let b = text[pos + i as usize];
        let d = match unhex(b) {
            Some(d) => d,
            None => {
                assert(!hyp) by {
                    if hyp {
                        assert(text@[pos + i] == hex16(m)[i as int]);
                        let x = nibble(m, i as int);
                        assert(x < 16) by (bit_vector)
                            requires
                                x == (m >> ((60 - 4 * i) as u64)) & 15,
                        ;
                    }
                }
                return None;
            },
        };
        proof {
            if hyp {
                assert(text@[pos + i] == hex16(m)[i as int]);
                let x = nibble(m, i as int);
                assert(x < 16) by (bit_vector)
                    requires
                        x == (m >> ((60 - 4 * i) as u64)) & 15,
                ;
                assert(d == x);
                let s: u64 = (60 - 4 * i) as u64;
                if i > 0 {
                    lemma_nibble_step(m, s);
                    assert((s + 4) as u64 == (64 - 4 * i) as u64);
                } else {
                    assert((0u64 << 4u64) | ((m >> 60u64) & 15) == m >> 60u64) by (bit_vector);
                }
            }
        }
        acc = (acc << 4u64) | d;
        i = i + 1;
    }
    assert(hyp ==> acc == m) by {
        if hyp {
            assert(m >> 0u64 == m) by (bit_vector);
        }
    }
    let mut check: Vec<u8> = Vec::new();
    push_hex16(&mut check, acc);
    let mut j: usize = 0;
    while j < 16
        invariant
            j <= 16,
            pos + 16 <= text@.len(),
            len == text@.len(),
            hyp == (text@.subrange(pos as int, pos + 16) == hex16(m)),
            hyp ==> acc == m,
            check@ == hex16(acc),
            forall|k: int| 0 <= k < j ==> text@[pos + k] == check@[k],
        decreases 16 - j,
    {
        if text[pos + j] != check[j] {
            assert(!hyp) by {
                if hyp {
                    assert(text@[pos + j] == text@.subrange(pos as int, pos + 16)[j as int]);
                }
            }
            return None;
        }
        j = j + 1;
    }
    assert(text@.subrange(pos as int, pos + 16) =~= hex16(acc));
    Some(acc)
}

/// A package's previously chosen version.
#[derive(Clone, Copy, Debug)]
pub struct Pin {
    pub package: usize,
    pub version: Version,
}

#[derive(Debug)]
pub enum FormatError {
    /// The text is not the canonical form of any list of pins.
    Malformed,
}

/// The format marker that opens every lockfile: `lock v1` and a newline.
pub open spec fn header() -> Seq<u8> {
    seq![108u8, 111u8, 99u8, 107u8, 32u8, 118u8, 49u8, 10u8]
}

/// `major.minor.patch`, then `-pre` where there is one, then a newline.
pub open spec fn encode_version(v: Version) -> Seq<u8> {
    hex16(v.major) + seq![46u8] + hex16(v.minor) + seq![46u8] + hex16(v.patch) + match v.pre {
        None => seq![10u8],
        Some(k) => seq![45u8] + hex16(k) + seq![10u8],
    }
}

/// The package index, a space, the version.
pub open spec fn encode_pin(e: Pin) -> Seq<u8> {
    hex16(e.package as u64) + seq![32u8] + encode_version(e.version)
}

pub open spec fn encode_pins(es: Seq<Pin>) -> Seq<u8>
    decreases es.len(),
{
    if es.len() == 0 {
        Seq::empty()
    } else {
        encode_pins(es.drop_last()) + encode_pin(es.last())
    }
}

pub open spec fn lock_text(es: Seq<Pin>) -> Seq<u8> {
    header() + encode_pins(es)
}

/// The pins of an answer: every package below `upto` with a chosen
/// candidate, in package order.
pub open spec fn pins_of(reg: Registry, a: Seq<Option<usize>>, upto: int) -> Seq<Pin>
    decreases upto,
{
    if upto <= 0 {
        Seq::empty()
    } else {
        let rest = pins_of(reg, a, upto - 1);
        match a[upto - 1] {
            Some(c) => if c < reg.packages@[upto - 1]@.len() {
                rest.push(Pin { package: (upto - 1) as usize, version: cand(reg, upto - 1, c as int).version })
            } else {
                rest
            },
            None => rest,
        }
    }
}

fn push_pin(out: &mut Vec<u8>, e: Pin)
    ensures
        final(out)@ == old(out)@ + encode_pin(e),
{
    push_hex16(out, e.package as u64);
    out.push(32u8);
    push_hex16(out, e.version.major);
    out.push(46u8);
    push_hex16(out, e.version.minor);
    out.push(46u8);
    push_hex16(out, e.version.patch);
    match e.version.pre {
        None => {
            out.push(10u8);
        },
        Some(k) => {
            out.push(45u8);
            push_hex16(out, k);
            out.push(10u8);
        },
    }
    assert(final(out)@ =~= old(out)@ + encode_pin(e));
}

/// The lockfile text of an answer: the format marker, then one line per
/// chosen package in package order.
pub fn serialize(registry: &Registry, a: &Vec<Option<usize>>) -> (r: Vec<u8>)
    requires
        a@.len() <= registry.packages@.len(),
    ensures
        r@ == lock_text(pins_of(*registry, a@, a@.len() as int)),
{
    let mut out: Vec<u8> = Vec::new();
    out.push(108u8);
    out.push(111u8);
    out.push(99u8);
    out.push(107u8);
    out.push(32u8);
    out.push(118u8);
    out.push(49u8);
    out.push(10u8);
    assert(out@ =~= lock_text(pins_of(*registry, a@, 0)));
    let mut p: usize = 0;
    while p < a.len()
        invariant
            p <= a@.len(),
            a@.len() <= registry.packages@.len(),
            out@ == lock_text(pins_of(*registry, a@, p as int)),
        decreases a@.len() - p,
    {
        let ghost before = pins_of(*registry, a@, p as int);
        if let Some(c) = a[p] {
            if c < registry.packages[p].len() {
                let e = Pin { package: p, version: registry.packages[p][c].version };
                push_pin(&mut out, e);
                assert(before.push(e).drop_last() =~= before);
                assert(out@ =~= lock_text(before.push(e)));
            }
        }
        p = p + 1;
    }
    out
}

proof fn lemma_pins_prefix(es: Seq<Pin>, j: int)
    requires
        0 <= j <= es.len(),
    ensures
        encode_pins(es.take(j)).len() <= encode_pins(es).len(),
        encode_pins(es).take(encode_pins(es.take(j)).len() as int) == encode_pins(es.take(j)),
    decreases es.len(),
{
    if j == es.len() {
        assert(es.take(j) =~= es);
    } else {
        lemma_pins_prefix(es.drop_last(), j);
        assert(es.drop_last().take(j) =~= es.take(j));
        let a = encode_pins(es.drop_last());
        let b = encode_pins(es.take(j));
        assert(encode_pins(es).take(b.len() as int) =~= a.take(b.len() as int));
    }
}

proof fn lemma_pins_step(es: Seq<Pin>, k: int)
    requires
        0 <= k < es.len(),
    ensures
        encode_pins(es.take(k + 1)) == encode_pins(es.take(k)) + encode_pin(es[k]),
{
    assert(es.take(k + 1).drop_last() =~= es.take(k));
}

/// Reads the canonical text of one pin at `pos`; `None` where the bytes
/// there are not the text of any pin. `want` is a pin whose text may stand
/// there.
fn read_pin(text: &Vec<u8>, pos: usize, Ghost(want): Ghost<Pin>) -> (r: Option<(Pin, usize)>)
    ensures
        r matches Some((e, end)) ==> pos < end <= text@.len() && text@.subrange(pos as int, end as int)
            == encode_pin(e),
        pos + encode_pin(want).len() <= text@.len() && text@.subrange(
            pos as int,
            pos + encode_pin(want).len(),
        ) == encode_pin(want) ==> r == Some((want, (pos + encode_pin(want).len()) as usize)),
{
    let ghost w = encode_pin(want);
    let ghost hyp = pos + w.len() <= text@.len() && text@.subrange(pos as int, pos + w.len()) == w;
    let len = text.len();
    if pos > len || len - pos < 68 {
        return None;
    }
    proof {
        if hyp {
            let t = text@.subrange(pos as int, pos + w.len());
            assert(text@.subrange(pos as int, pos + 16) =~= t.subrange(0, 16));
            assert(t.subrange(0, 16) =~= hex16(want.package as u64));
            assert(text@[pos + 16] == t[16]);
            assert(text@.subrange(pos + 17, pos + 33) =~= t.subrange(17, 33));
            assert(t.subrange(17, 33) =~= hex16(want.version.major));
            assert(text@[pos + 33] == t[33]);
            assert(text@.subrange(pos + 34, pos + 50) =~= t.subrange(34, 50));
            assert(t.subrange(34, 50) =~= hex16(want.version.minor));
            assert(text@[pos + 50] == t[50]);
            assert(text@.subrange(pos + 51, pos + 67) =~= t.subrange(51, 67));
            assert(t.subrange(51, 67) =~= hex16(want.version.patch));
            assert(text@[pos + 67] == t[67]);
        }
    }
    let package = match read_hex16(text, pos, Ghost(want.package as u64)) {
        Some(n) => n,
        None => {
            return None;
        },
    };
    if package > usize::MAX as u64 || text[pos + 16] != 32u8 {
        return None;
    }
    let major = match read_hex16(text, pos + 17, Ghost(want.version.major)) {
        Some(n) => n,
        None => {
            return None;
        },
    };
    if text[pos + 33] != 46u8 {
        return None;
    }
    let minor = match read_hex16(text, pos + 34, Ghost(want.version.minor)) {
        Some(n) => n,
        None => {
            return None;
        },
    };
    if text[pos + 50] != 46u8 {
        return None;
    }
    let patch = match read_hex16(text, pos + 51, Ghost(want.version.patch)) {
        Some(n) => n,
        None => {
            return None;
        },
    };
    let ghost head = text@.subrange(pos as int, pos + 67);
    assert(head =~= hex16(package) + seq![32u8] + hex16(major) + seq![46u8] + hex16(minor) + seq![
        46u8,
    ] + hex16(patch)) by {
        assert(text@.subrange(pos as int, pos + 16) == hex16(package));
        assert(text@.subrange(pos + 17, pos + 33) == hex16(major));
        assert(text@.subrange(pos + 34, pos + 50) == hex16(minor));
        assert(text@.subrange(pos + 51, pos + 67) == hex16(patch));
        assert forall|i: int| 0 <= i < 16 implies #[trigger] head[i] == hex16(package)[i] by {
            assert(head[i] == text@.subrange(pos as int, pos + 16)[i]);
        }
        assert forall|i: int| 17 <= i < 33 implies #[trigger] head[i] == hex16(major)[i - 17] by {
            assert(head[i] == text@.subrange(pos + 17, pos + 33)[i - 17]);
        }
        assert forall|i: int| 34 <= i < 50 implies #[trigger] head[i] == hex16(minor)[i - 34] by {
            assert(head[i] == text@.subrange(pos + 34, pos + 50)[i - 34]);
        }
        assert forall|i: int| 51 <= i < 67 implies #[trigger] head[i] == hex16(patch)[i - 51] by {
            assert(head[i] == text@.subrange(pos + 51, pos + 67)[i - 51]);
        }
    }
    let mark = text[pos + 67];
    if mark == 10u8 {
        let e = Pin {
            package: package as usize,
            version: Version { major, minor, patch, pre: None },
        };
        assert(text@.subrange(pos as int, pos + 68) =~= head.push(10u8));
        assert(encode_pin(e) =~= head.push(10u8));
        proof {
            if hyp {
                assert(want.version.pre is None) by {
                    if want.version.pre is Some {
                        assert(w[67] == 45u8);
                        assert(text@[pos + 67] == w[67]);
                    }
                }
                assert(w.len() == 68);
            }
        }
        Some((e, pos + 68))
    } else if mark == 45u8 {
        if len - pos < 85 {
            proof {
                if hyp {
                    assert(want.version.pre is Some) by {
                        if want.version.pre is None {
                            assert(w[67] == 10u8);
                            assert(text@[pos + 67] == w[67]);
                        }
                    }
                }
            }
            return None;
        }
        let ghost wk: u64 = match want.version.pre {
            Some(k) => k,
            None => 0,
        };
        proof {
            if hyp {
                assert(want.version.pre is Some) by {
                    if want.version.pre is None {
                        assert(w[67] == 10u8);
                        assert(text@[pos + 67] == w[67]);
                    }
                }
                let t = text@.subrange(pos as int, pos + w.len());
                assert(text@.subrange(pos + 68, pos + 84) =~= t.subrange(68, 84));
                assert(t.subrange(68, 84) =~= hex16(wk));
                assert(text@[pos + 84] == t[84]);
            }
        }
        let pre = match read_hex16(text, pos + 68, Ghost(wk)) {
            Some(n) => n,
            None => {
                return None;
            },
        };
        if text[pos + 84] != 10u8 {
            return None;
        }
        let e = Pin {
            package: package as usize,
            version: Version { major, minor, patch, pre: Some(pre) },
        };
        assert(text@.subrange(pos as int, pos + 85) =~= head.push(45u8) + hex16(pre) + seq![10u8]) by {
            assert(text@.subrange(pos + 68, pos + 84) == hex16(pre));
            assert forall|i: int| 68 <= i < 84 implies #[trigger] text@.subrange(pos as int, pos + 85)[i] == hex16(
                pre,
            )[i - 68] by {
                assert(text@.subrange(pos as int, pos + 85)[i] == text@.subrange(pos + 68, pos + 84)[i
                    - 68]);
            }
        }
        assert(encode_pin(e) =~= head.push(45u8) + hex16(pre) + seq![10u8]);
        Some((e, pos + 85))
    } else {
        proof {
            if hyp {
                assert(text@[pos + 67] == w[67]);
            }
        }
        None
    }
}

/// Reads a lockfile back into its pins. Succeeds exactly on the canonical
/// text of some list of pins, and then gives that list.
pub fn parse(text: &Vec<u8>) -> (r: Result<Vec<Pin>, FormatError>)
    ensures
        r matches Ok(v) ==> lock_text(v@) == text@,
        r is Ok <==> exists|es: Seq<Pin>| lock_text(es) == text@,
{
    let ghost has = exists|es: Seq<Pin>| lock_text(es) == text@;
    let ghost es0: Seq<Pin> = if has {
        choose|es: Seq<Pin>| lock_text(es) == text@
    } else {
        Seq::empty()
    };
    let len = text.len();
    if len < 8 || text[0] != 108u8 || text[1] != 111u8 || text[2] != 99u8 || text[3] != 107u8
        || text[4] != 32u8 || text[5] != 118u8 || text[6] != 49u8 || text[7] != 10u8 {
        proof {
            if has {
                assert(text@.take(8) == lock_text(es0).take(8));
                assert(lock_text(es0).take(8) =~= header());
                assert(text@[0] == text@.take(8)[0]);
                assert(text@[1] == text@.take(8)[1]);
                assert(text@[2] == text@.take(8)[2]);
                assert(text@[3] == text@.take(8)[3]);
                assert(text@[4] == text@.take(8)[4]);
                assert(text@[5] == text@.take(8)[5]);
                assert(text@[6] == text@.take(8)[6]);
                assert(text@[7] == text@.take(8)[7]);
            }
        }
        return Err(FormatError::Malformed);
    }
    let mut out: Vec<Pin> = Vec::new();
    let mut pos: usize = 8;
    assert(text@.take(8) =~= lock_text(out@));
    while pos < len
        invariant
            len == text@.len(),
            8 <= pos <= len,
            text@.take(pos as int) == lock_text(out@),
            has == exists|es: Seq<Pin>| lock_text(es) == text@,
            has ==> lock_text(es0) == text@,
            has ==> out@.len() <= es0.len() && out@ == es0.take(out@.len() as int),
        decreases len - pos,
    {
        let ghost k = out@.len() as int;
        let ghost want: Pin = if has && k < es0.len() {
            es0[k]
        } else {
            Pin { package: 0, version: Version { major: 0, minor: 0, patch: 0, pre: None } }
        };
        proof {
            if has {
                if k == es0.len() {
                    assert(es0.take(k) =~= es0);
                    assert(text@.take(pos as int).len() == text@.len());
                }
                assert(k < es0.len());
                lemma_pins_step(es0, k);
                lemma_pins_prefix(es0, k + 1);
                let pre = encode_pins(es0.take(k));
                let step = encode_pins(es0.take(k + 1));
                let whole = encode_pins(es0);
                assert(pos == 8 + pre.len());
                assert(text@.subrange(pos as int, pos + encode_pin(want).len()) =~= step.subrange(
                    pre.len() as int,
                    step.len() as int,
                )) by {
                    assert forall|i: int| 0 <= i < encode_pin(want).len() implies #[trigger] text@.subrange(
                        pos as int,
                        pos + encode_pin(want).len(),
                    )[i] == step.subrange(pre.len() as int, step.len() as int)[i] by {
                        assert(text@[pos + i] == lock_text(es0)[pos + i]);
                        assert(whole[pre.len() + i] == whole.take(step.len() as int)[pre.len() + i]);
                    }
                }
                assert(step.subrange(pre.len() as int, step.len() as int) =~= encode_pin(want));
                assert(pos + encode_pin(want).len() <= text@.len());
            }
        }
        let (e, end) = match read_pin(text, pos, Ghost(want)) {
            Some(x) => x,
            None => {
                return Err(FormatError::Malformed);
            },
        };
        let ghost before = out@;
        out.push(e);
        proof {
            assert(out@.drop_last() =~= before);
            assert(text@.take(end as int) =~= text@.take(pos as int) + text@.subrange(pos as int, end as int));
            if has {
                assert(out@ =~= es0.take(k + 1));
            }
        }
        pos = end;
    }
    assert(text@.take(pos as int) =~= text@);
    Ok(out)
}

proof fn lemma_hex16_injective(a: u64, b: u64)
    requires
        hex16(a) == hex16(b),
    ensures
        a == b,
{
    assert forall|i: int| 0 <= i < 16 implies nibble(a, i) == nibble(b, i) by {
        assert(hex16(a)[i] == hex16(b)[i]);
        let x = nibble(a, i);
        let y = nibble(b, i);
        let s = (60 - 4 * i) as u64;
        assert(x < 16 && y < 16) by (bit_vector)
            requires
                x == (a >> s) & 15,
                y == (b >> s) & 15,
        ;
        assert(hex16(a)[i] == hex_digit(x));
        assert(hex16(b)[i] == hex_digit(y));
        if x < 10 && y < 10 {
            assert(48 + x < 256 && 48 + y < 256);
        } else if x >= 10 && y >= 10 {
            assert(87 + x < 256 && 87 + y < 256);
        } else {
            assert(hex_digit(x) != hex_digit(y));
        }
    }
    assert(nibble(a, 0) == nibble(b, 0));
    assert(nibble(a, 1) == nibble(b, 1));
    assert(nibble(a, 2) == nibble(b, 2));
    assert(nibble(a, 3) == nibble(b, 3));
    assert(nibble(a, 4) == nibble(b, 4));
    assert(nibble(a, 5) == nibble(b, 5));
    assert(nibble(a, 6) == nibble(b, 6));
    assert(nibble(a, 7) == nibble(b, 7));
    assert(nibble(a, 8) == nibble(b, 8));
    assert(nibble(a, 9) == nibble(b, 9));
    assert(nibble(a, 10) == nibble(b, 10));
    assert(nibble(a, 11) == nibble(b, 11));
    assert(nibble(a, 12) == nibble(b, 12));
    assert(nibble(a, 13) == nibble(b, 13));
    assert(nibble(a, 14) == nibble(b, 14));
    assert(nibble(a, 15) == nibble(b, 15));
    assert(a == b) by (bit_vector)
        requires
            (a >> 60u64) & 15 == (b >> 60u64) & 15,
            (a >> 56u64) & 15 == (b >> 56u64) & 15,
            (a >> 52u64) & 15 == (b >> 52u64) & 15,
            (a >> 48u64) & 15 == (b >> 48u64) & 15,
            (a >> 44u64) & 15 == (b >> 44u64) & 15,
            (a >> 40u64) & 15 == (b >> 40u64) & 15,
            (a >> 36u64) & 15 == (b >> 36u64) & 15,
            (a >> 32u64) & 15 == (b >> 32u64) & 15,
            (a >> 28u64) & 15 == (b >> 28u64) & 15,
            (a >> 24u64) & 15 == (b >> 24u64) & 15,
            (a >> 20u64) & 15 == (b >> 20u64) & 15,
            (a >> 16u64) & 15 == (b >> 16u64) & 15,
            (a >> 12u64) & 15 == (b >> 12u64) & 15,
            (a >> 8u64) & 15 == (b >> 8u64) & 15,
            (a >> 4u64) & 15 == (b >> 4u64) & 15,
            (a >> 0u64) & 15 == (b >> 0u64) & 15,
    ;
}

proof fn lemma_pins_front(es: Seq<Pin>)
    requires
        es.len() > 0,
    ensures
        encode_pins(es) == encode_pin(es[0]) + encode_pins(es.skip(1)),
    decreases es.len(),
{
    if es.len() == 1 {
        assert(es.drop_last() =~= Seq::<Pin>::empty());
        assert(es.skip(1) =~= Seq::<Pin>::empty());
        assert(encode_pins(es) =~= encode_pin(es[0]) + encode_pins(es.skip(1)));
    } else {
        lemma_pins_front(es.drop_last());
        assert(es.skip(1).drop_last() =~= es.drop_last().skip(1));
        assert(es.skip(1).last() == es.last());
        assert(encode_pins(es) =~= encode_pin(es[0]) + encode_pins(es.skip(1)));
    }
}

proof fn lemma_hex16_at(x: Seq<u8>, at: int, n: u64, y: Seq<u8>, m: u64)
    requires
        0 <= at,
        at + 16 <= x.len(),
        x == y,
        x.subrange(at, at + 16) == hex16(n),
        y.subrange(at, at + 16) == hex16(m),
    ensures
        n == m,
{
    lemma_hex16_injective(n, m);
}

/// No pin's text is a proper prefix of another's, and the text gives the pin.
proof fn lemma_pin_unique(x: Pin, s: Seq<u8>, y: Pin, t: Seq<u8>)
    requires
        encode_pin(x) + s == encode_pin(y) + t,
    ensures
        x == y,
        s == t,
{
    let tx = encode_pin(x) + s;
    let ty = encode_pin(y) + t;
    assert(tx.subrange(0, 16) =~= hex16(x.package as u64));
    assert(ty.subrange(0, 16) =~= hex16(y.package as u64));
    lemma_hex16_at(tx, 0, x.package as u64, ty, y.package as u64);
    assert(tx.subrange(17, 33) =~= hex16(x.version.major));
    assert(ty.subrange(17, 33) =~= hex16(y.version.major));
    lemma_hex16_at(tx, 17, x.version.major, ty, y.version.major);
    assert(tx.subrange(34, 50) =~= hex16(x.version.minor));
    assert(ty.subrange(34, 50) =~= hex16(y.version.minor));
    lemma_hex16_at(tx, 34, x.version.minor, ty, y.version.minor);
    assert(tx.subrange(51, 67) =~= hex16(x.version.patch));
    assert(ty.subrange(51, 67) =~= hex16(y.version.patch));
    lemma_hex16_at(tx, 51, x.version.patch, ty, y.version.patch);
    assert(tx[67] == ty[67]);
    match (x.version.pre, y.version.pre) {
        (Some(i), Some(j)) => {
            assert(tx.subrange(68, 84) =~= hex16(i));
            assert(ty.subrange(68, 84) =~= hex16(j));
            lemma_hex16_at(tx, 68, i, ty, j);
        },
        (None, None) => {},
        (Some(_), None) => {
            assert(tx[67] == 45u8);
            assert(ty[67] == 10u8);
        },
        (None, Some(_)) => {
            assert(tx[67] == 10u8);
            assert(ty[67] == 45u8);
        },
    }
    assert(x.version == y.version);
    assert(x == y);
    assert(s =~= tx.skip(encode_pin(x).len() as int));
    assert(t =~= ty.skip(encode_pin(y).len() as int));
}

proof fn lemma_pins_injective(a: Seq<Pin>, b: Seq<Pin>)
    requires
        encode_pins(a) == encode_pins(b),
    ensures
        a == b,
    decreases a.len(),
{
    if a.len() == 0 {
        if b.len() > 0 {
            lemma_pins_front(b);
        }
        assert(a =~= b);
    } else {
        if b.len() == 0 {
            lemma_pins_front(a);
        } else {
            lemma_pins_front(a);
            lemma_pins_front(b);
            lemma_pin_unique(a[0], encode_pins(a.skip(1)), b[0], encode_pins(b.skip(1)));
            lemma_pins_injective(a.skip(1), b.skip(1));
            assert(a =~= b) by {
                assert forall|i: int| 0 <= i < a.len() implies a[i] == b[i] by {
                    if i > 0 {
                        assert(a[i] == a.skip(1)[i - 1]);
                        assert(b[i] == b.skip(1)[i - 1]);
                    }
                }
            }
        }
    }
}

/// Each pin of an answer names a package that the answer picks, with the
/// version of the candidate picked.
pub open spec fn pins_match(reg: Registry, a: Seq<Option<usize>>, ps: Seq<Pin>) -> bool {
    forall|i: int|
        0 <= i < ps.len() ==> {
            let p = (#[trigger] ps[i]).package as int;
            &&& p < a.len()
            &&& a[p] is Some
            &&& (a[p]->Some_0 as int) < reg.packages@[p]@.len()
            &&& cand(reg, p, a[p]->Some_0 as int).version == ps[i].version
        }
}

proof fn lemma_pins_of_match(reg: Registry, a: Seq<Option<usize>>, upto: int)
    requires
        0 <= upto <= a.len(),
        a.len() <= usize::MAX,
    ensures
        pins_match(reg, a, pins_of(reg, a, upto)),
    decreases upto,
{
    if upto > 0 {
        lemma_pins_of_match(reg, a, upto - 1);
        let rest = pins_of(reg, a, upto - 1);
        let ps = pins_of(reg, a, upto);
        assert forall|i: int| 0 <= i < ps.len() implies {
            let p = (#[trigger] ps[i]).package as int;
            &&& p < a.len()
            &&& a[p] is Some
            &&& (a[p]->Some_0 as int) < reg.packages@[p]@.len()
            &&& cand(reg, p, a[p]->Some_0 as int).version == ps[i].version
        } by {
            match a[upto - 1] {
                Some(c) => {
                    if c < reg.packages@[upto - 1]@.len() {
                        assert(ps == rest.push(
                            Pin { package: (upto - 1) as usize, version: cand(reg, upto - 1, c as int).version },
                        ));
                        if i < rest.len() {
                            assert(ps[i] == rest[i]);
                        }
                    } else {
                        assert(ps == rest);
                    }
                },
                None => {
                    assert(ps == rest);
                },
            }
        }
    }
}

/// Reading back what `serialize` wrote for an answer gives exactly the pins
/// of that answer: each picked package, in order, with the version picked.
pub proof fn lemma_parse_serialize(reg: Registry, a: Seq<Option<usize>>, v: Seq<Pin>)
    requires
        a.len() <= usize::MAX,
        lock_text(v) == lock_text(pins_of(reg, a, a.len() as int)),
    ensures
        v == pins_of(reg, a, a.len() as int),
        pins_match(reg, a, v),
{
    let w = pins_of(reg, a, a.len() as int);
    assert(encode_pins(v) =~= lock_text(v).skip(8));
    assert(encode_pins(w) =~= lock_text(w).skip(8));
    lemma_pins_injective(v, w);
    lemma_pins_of_match(reg, a, a.len() as int);
}

/// Some pin names package `p` with the version of its candidate `c`.
pub open spec fn pinned(reg: Registry, pins: Seq<Pin>, p: int, c: int) -> bool {
    exists|i: int|
        0 <= i < pins.len() && (#[trigger] pins[i]).package == p && same_version(
            pins[i].version,
            cand(reg, p, c).version,
        )
}

/// The lock hint for the resolver: for each package, a candidate whose
/// version a pin names. Pins of packages or versions that the registry no
/// longer has are dropped.
pub fn preference(registry: &Registry, pins: &Vec<Pin>) -> (r: Vec<Option<usize>>)
    ensures
        r@.len() == n_packages(*registry),
        forall|p: int|
            0 <= p < r@.len() && #[trigger] r@[p] is Some ==> (r@[p]->Some_0 as int)
                < registry.packages@[p]@.len() && pinned(*registry, pins@, p, r@[p]->Some_0 as int),
        forall|p: int, c: int|
            0 <= p < n_packages(*registry) && 0 <= c < registry.packages@[p]@.len() && #[trigger] pinned(
                *registry,
                pins@,
                p,
                c,
            ) ==> r@[p] is Some,
{
    let n = registry.packages.len();
    let mut r: Vec<Option<usize>> = Vec::new();
    while r.len() < n
        invariant
            r@.len() <= n,
            n == n_packages(*registry),
            forall|p: int| 0 <= p < r@.len() ==> #[trigger] r@[p] is None,
        decreases n - r@.len(),
    {
        r.push(None);
    }
    let mut i: usize = 0;
    while i < pins.len()
        invariant
            i <= pins@.len(),
            n == n_packages(*registry),
            r@.len() == n,
            forall|p: int|
                0 <= p < r@.len() && #[trigger] r@[p] is Some ==> (r@[p]->Some_0 as int)
                    < registry.packages@[p]@.len() && pinned(*registry, pins@, p, r@[p]->Some_0 as int),
            forall|j: int, c: int|
                0 <= j < i && (pins@[j].package as int) < n && 0 <= c
                    < registry.packages@[pins@[j].package as int]@.len() && same_version(
                    pins@[j].version,
                    #[trigger] cand(*registry, pins@[j].package as int, c).version,
                ) ==> r@[pins@[j].package as int] is Some,
        decreases pins@.len() - i,
    {
        let pin = pins[i];
        if pin.package < n {
            let cs = &registry.packages[pin.package];
            let mut c: usize = 0;
            while c < cs.len()
                invariant
                    c <= cs@.len(),
                    cs@ == registry.packages@[pin.package as int]@,
                    forall|x: int| 0 <= x < c ==> !same_version(pin.version, #[trigger] cs@[x].version),
                ensures
                    c <= cs@.len(),
                    c < cs@.len() ==> same_version(pin.version, cs@[c as int].version),
                    forall|x: int| 0 <= x < c ==> !same_version(pin.version, #[trigger] cs@[x].version),
                decreases cs@.len() - c,
            {
                if pin.version.same(&cs[c].version) {
                    break;
                }
                c = c + 1;
            }
            if c < cs.len() {
                r.set(pin.package, Some(c));
                assert(pins@[i as int] == pin);
                assert(pinned(*registry, pins@, pin.package as int, c as int));
            } else {
                assert forall|x: int| 0 <= x < cs@.len() implies !same_version(
                    pin.version,
                    cand(*registry, pin.package as int, x).version,
                ) by {
                    assert(cs@[x] == cand(*registry, pin.package as int, x));
                }
            }
        }
        i = i + 1;
    }
    proof {
        assert forall|p: int, c: int|
            0 <= p < n_packages(*registry) && 0 <= c < registry.packages@[p]@.len() && #[trigger] pinned(
                *registry,
                pins@,
                p,
                c,
            ) implies r@[p] is Some by {
            let j = choose|j: int|
                0 <= j < pins@.len() && (#[trigger] pins@[j]).package == p && same_version(
                    pins@[j].version,
                    cand(*registry, p, c).version,
                );
            assert(same_version(pins@[j].version, cand(*registry, pins@[j].package as int, c).version));
        }
    }
    r
}

} // verus!
