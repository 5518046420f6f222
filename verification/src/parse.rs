//! The template text parser: escaped literals, reference markers, group
//! markers with their doubling escapes, and an optional leading flag that
//! switches on extended whitespace-and-comments mode.

use vstd::prelude::*;
use crate::ast::{Part, PartV, Replacement, parts_view, part_view, template_view, templates_view,
    lemma_parts_view};
use crate::eval;
use crate::eval::{ErrV, eval_parts, eval_part};
use crate::capture::Capture;

verus! {

/// The bytes of the template language's marker characters.
pub const BSLASH: u8 = 0x5c;

pub const SPACE: u8 = 0x20;

pub const TAB: u8 = 0x09;

pub const NL: u8 = 0x0a;

pub const DOLLAR: u8 = 0x24;

pub const LT: u8 = 0x3c;

pub const GT: u8 = 0x3e;

pub const RBRACE: u8 = 0x7d;

pub const LPAR: u8 = 0x28;

pub const RPAR: u8 = 0x29;

pub const BAR: u8 = 0x7c;

pub const HASH: u8 = 0x23;

pub const QMARK: u8 = 0x3f;

pub const LX: u8 = 0x78;

pub const D0: u8 = 0x30;

pub const D9: u8 = 0x39;

pub const LA: u8 = 0x61;

pub const LF: u8 = 0x66;

pub const UA: u8 = 0x41;

pub const UF: u8 = 0x46;


pub open spec fn is_ws(b: u8) -> bool {
    b == SPACE || b == TAB || b == NL
}

pub open spec fn is_digit(b: u8) -> bool {
    D0 <= b <= D9
}

pub open spec fn is_hex(b: u8) -> bool {
    is_digit(b) || (LA <= b <= LF) || (UA <= b <= UF)
}

pub open spec fn hex_val(b: u8) -> u8 {
    if is_digit(b) {
        (b - D0) as u8
    } else if LA <= b <= LF {
        (b - LA + 10) as u8
    } else {
        (b - UA + 10) as u8
    }
}

/// The position just after the next newline, or the text's end.
pub open spec fn skip_line(s: Seq<u8>, i: int) -> int
    decreases s.len() - i,
{
    if i < 0 || i >= s.len() {
        i
    } else if s[i] == NL {
        i + 1
    } else {
        skip_line(s, i + 1)
    }
}

/// In extended mode, the position after any run of whitespace and
/// end-of-line comments; elsewhere the position itself.
pub open spec fn skip_ws(s: Seq<u8>, i: int, x: bool) -> int
    decreases s.len() - i,
{
    if !x || i < 0 || i >= s.len() {
        i
    } else if is_ws(s[i]) {
        skip_ws(s, i + 1, x)
    } else if s[i] == HASH {
        // A comment line always ends past the comment marker; the bound
        // guards the recursion's measure.
        let j = skip_line(s, i + 1);
        if i + 1 <= j <= s.len() {
            skip_ws(s, j, x)
        } else {
            i
        }
    } else {
        i
    }
}

/// The first position at or after `i` that does not hold a digit.
pub open spec fn scan_digits(s: Seq<u8>, i: int) -> int
    decreases s.len() - i,
{
    if 0 <= i < s.len() && is_digit(s[i]) {
        scan_digits(s, i + 1)
    } else {
        i
    }
}

/// The numeric value of the digits in `s[i..j]`.
pub open spec fn digits_val(s: Seq<u8>, i: int, j: int) -> int
    decreases j - i,
{
    if j <= i {
        0
    } else {
        digits_val(s, i, j - 1) * 10 + (s[j - 1] - D0)
    }
}

/// The first position at or after `i` that ends a reference name.
pub open spec fn scan_name(s: Seq<u8>, i: int) -> int
    decreases s.len() - i,
{
    if 0 <= i < s.len() && s[i] != GT && s[i] != RBRACE {
        scan_name(s, i + 1)
    } else {
        i
    }
}

/// The outcome of trying one part at a position: a part and the position
/// after it, no part here (the position ends a part sequence), or a hard
/// parse failure at a position.
pub enum PPart {
    TOk(PartV, int),
    TNone,
    TErr(int),
}

/// The outcome of a part sequence: the parts and the position after them
/// (trailing insignificant whitespace skipped), or a failure position.
pub enum PParts {
    POk(Seq<PartV>, int),
    PErr(int),
}

/// The outcome of a group's branches: the branches and the position after
/// the closing marker, or a failure position.
pub enum GRes {
    GOk(Seq<Seq<PartV>>, int),
    GErr(int),
}

/// An escaped literal: the escape introducer followed by itself, a space,
/// or a two-hex-digit byte value.
pub open spec fn parse_escape(s: Seq<u8>, i: int) -> PPart {
    if i + 1 >= s.len() {
        PPart::TErr(i)
    } else if s[i + 1] == BSLASH {
        PPart::TOk(PartV::Byte(BSLASH), i + 2)
    } else if s[i + 1] == SPACE {
        PPart::TOk(PartV::Byte(SPACE), i + 2)
    } else if s[i + 1] == LX && i + 3 < s.len() && is_hex(s[i + 2]) && is_hex(s[i + 3]) {
        PPart::TOk(PartV::Byte((16 * hex_val(s[i + 2]) + hex_val(s[i + 3])) as u8), i + 4)
    } else {
        PPart::TErr(i)
    }
}

/// A reference marker: doubled for a literal marker byte, digits for a
/// positional reference, or a bracketed name for a named reference.
pub open spec fn parse_ref(s: Seq<u8>, i: int) -> PPart {
    if i + 1 >= s.len() {
        PPart::TErr(i)
    } else if s[i + 1] == DOLLAR {
        PPart::TOk(PartV::Byte(DOLLAR), i + 2)
    } else if is_digit(s[i + 1]) {
        let j = scan_digits(s, i + 1);
        let v = digits_val(s, i + 1, j);
        if v <= usize::MAX as int {
            PPart::TOk(PartV::RepId(v), j)
        } else {
            PPart::TErr(i)
        }
    } else if s[i + 1] == LT {
        let j = scan_name(s, i + 2);
        if i + 2 < j < s.len() && s[j] == GT {
            PPart::TOk(PartV::RepName(s.subrange(i + 2, j)), j + 1)
        } else {
            PPart::TErr(i)
        }
    } else {
        PPart::TErr(i)
    }
}

/// One part at position `i`. A lone close marker or branch separator is no
/// part: it ends the enclosing sequence.
pub open spec fn parse_part(s: Seq<u8>, i: int, x: bool) -> PPart
    decreases s.len() - i, 0int,
{
    if i < 0 || i >= s.len() {
        PPart::TNone
    } else {
        let c = s[i];
        if c == BSLASH {
            parse_escape(s, i)
        } else if c == DOLLAR {
            parse_ref(s, i)
        } else if c == LPAR {
            if i + 1 < s.len() && s[i + 1] == LPAR {
                PPart::TOk(PartV::Byte(LPAR), i + 2)
            } else {
                match parse_branches(s, i + 1, x) {
                    GRes::GOk(bs, j) => PPart::TOk(PartV::Group(bs), j),
                    GRes::GErr(q) => PPart::TErr(q),
                }
            }
        } else if c == RPAR {
            if i + 1 < s.len() && s[i + 1] == RPAR {
                PPart::TOk(PartV::Byte(RPAR), i + 2)
            } else {
                PPart::TNone
            }
        } else if c == BAR {
            if i + 1 < s.len() && s[i + 1] == BAR {
                PPart::TOk(PartV::Byte(BAR), i + 2)
            } else {
                PPart::TNone
            }
        } else if c == HASH && x {
            PPart::TErr(i)
        } else if c <= 0x7f {
            PPart::TOk(PartV::Byte(c), i + 1)
        } else {
            PPart::TErr(i)
        }
    }
}

/// A part sequence: at least one part, further parts separated by
/// insignificant whitespace in extended mode.
pub open spec fn parse_parts(s: Seq<u8>, i: int, x: bool) -> PParts
    decreases s.len() - i, 1int,
{
    match parse_part(s, i, x) {
        PPart::TErr(q) => PParts::PErr(q),
        PPart::TNone => PParts::PErr(i),
        // A parsed part always ends past where it began; the bound guards
        // the recursion's measure.
        PPart::TOk(part, j) => if i < j <= s.len() {
            parse_parts_loop(s, j, x, seq![part])
        } else {
            PParts::PErr(i)
        },
    }
}

pub open spec fn parse_parts_loop(s: Seq<u8>, i: int, x: bool, acc: Seq<PartV>) -> PParts
    decreases s.len() - i, 2int,
{
    if i < 0 {
        PParts::PErr(i)
    } else {
        // Skipped whitespace never moves backwards nor past the end; the
        // bounds guard the recursion's measure.
        let p = skip_ws(s, i, x);
        if !(i <= p <= s.len()) {
            PParts::PErr(i)
        } else {
            match parse_part(s, p, x) {
                PPart::TErr(q) => PParts::PErr(q),
                PPart::TNone => PParts::POk(acc, p),
                PPart::TOk(part, j) => if p < j <= s.len() {
                    parse_parts_loop(s, j, x, acc.push(part))
                } else {
                    PParts::PErr(p)
                },
            }
        }
    }
}

pub open spec fn parse_branches_loop(s: Seq<u8>, i: int, x: bool, acc: Seq<Seq<PartV>>) -> GRes
    decreases s.len() - i, 3int,
{
    if !(0 <= i <= s.len()) {
        GRes::GErr(i)
    } else {
        match parse_parts(s, i, x) {
            PParts::PErr(q) => GRes::GErr(q),
            PParts::POk(parts, p) => if p >= s.len() {
                GRes::GErr(p)
            } else if s[p] == RPAR {
                GRes::GOk(acc.push(parts), p + 1)
            } else if s[p] == BAR {
                let q = skip_ws(s, p + 1, x);
                if i < q <= s.len() {
                    parse_branches_loop(s, q, x, acc.push(parts))
                } else {
                    GRes::GErr(p)
                }
            } else {
                GRes::GErr(p)
            },
        }
    }
}

/// A group's branches, just after the open marker: an immediate close
/// marker yields an empty group, else branches separated by the bar marker
/// up to the close marker.
pub open spec fn parse_branches(s: Seq<u8>, i: int, x: bool) -> GRes
    decreases s.len() - i, 4int,
{
    if !(0 <= i <= s.len()) {
        GRes::GErr(i)
    } else {
        let p = skip_ws(s, i, x);
        if !(i <= p <= s.len()) {
            GRes::GErr(i)
        } else if p < s.len() && s[p] == RPAR {
            GRes::GOk(Seq::empty(), p + 1)
        } else {
            parse_branches_loop(s, p, x, Seq::empty())
        }
    }
}

/// What a whole template text parses to: the parts, or the position where
/// parsing failed. A leading `(?x)` switches on extended mode.
pub open spec fn spec_parse(s: Seq<u8>) -> Result<Seq<PartV>, int> {
    let x = s.len() >= 4 && s[0] == LPAR && s[1] == QMARK && s[2] == LX && s[3] == RPAR;
    let start: int = if x {
        4
    } else {
        0
    };
    let p0 = skip_ws(s, start, x);
    if !(start <= p0 <= s.len()) {
        Err(start)
    } else {
        match parse_parts(s, p0, x) {
            PParts::PErr(q) => Err(q),
            PParts::POk(parts, p) => if p == s.len() {
                Ok(parts)
            } else {
                Err(p)
            },
        }
    }
}

fn exec_skip_line(s: &[u8], a: usize) -> (r: usize)
    requires
        a <= s@.len(),
    ensures
        a <= r <= s@.len(),
        r as int == skip_line(s@, a as int),
{
    let n = s.len();
    let mut k = a;
    loop
        invariant
            a <= k <= n,
            n == s@.len(),
            skip_line(s@, a as int) == skip_line(s@, k as int),
        decreases n - k,
    {
        if k >= n {
            return k;
        }
        if s[k] == NL {
            return k + 1;
        }
        k += 1;
    }
}

fn exec_skip_ws(s: &[u8], i: usize, x: bool) -> (r: usize)
    requires
        i <= s@.len(),
    ensures
        i <= r <= s@.len(),
        r as int == skip_ws(s@, i as int, x),
{
    if !x {
        return i;
    }
    let n = s.len();
    let mut cur = i;
    loop
        invariant
            i <= cur <= n,
            n == s@.len(),
            skip_ws(s@, i as int, x) == skip_ws(s@, cur as int, x),
            x,
        decreases n - cur,
    {
        if cur >= n {
            return cur;
        }
        let c = s[cur];
        if c == SPACE || c == TAB || c == NL {
            cur += 1;
        } else if c == HASH {
            let k = exec_skip_line(s, cur + 1);
            assert(skip_ws(s@, cur as int, x) == skip_ws(s@, k as int, x));
            cur = k;
        } else {
            return cur;
        }
    }
}

/// The bytes of `s` in `a..b`.
fn slice_to_vec(s: &[u8], a: usize, b: usize) -> (r: Vec<u8>)
    requires
        a <= b <= s@.len(),
    ensures
        r@ == s@.subrange(a as int, b as int),
{
    let mut out: Vec<u8> = Vec::new();
    let mut k = a;
    while k < b
        invariant
            a <= k <= b <= s@.len(),
            out@ =~= s@.subrange(a as int, k as int),
        decreases b - k,
    {
        out.push(s[k]);
        proof {
            assert(s@.subrange(a as int, k + 1) =~= s@.subrange(a as int, k as int).push(
                s@[k as int],
            ));
        }
        k += 1;
    }
    out
}

/// Every position scanned over by `scan_digits` holds a digit.
proof fn lemma_scan_digits(s: Seq<u8>, a: int)
    requires
        0 <= a <= s.len(),
    ensures
        a <= scan_digits(s, a) <= s.len(),
        forall|k: int| a <= k < scan_digits(s, a) ==> is_digit(s[k]),
    decreases s.len() - a,
{
    if a < s.len() && is_digit(s[a]) {
        lemma_scan_digits(s, a + 1);
    }
}

/// Digit runs have non-negative values that only grow as the run extends.
proof fn lemma_digits_mono(s: Seq<u8>, a: int, b: int, b2: int)
    requires
        a <= b <= b2,
        forall|k: int| a <= k < b2 ==> is_digit(s[k]),
    ensures
        0 <= digits_val(s, a, b) <= digits_val(s, a, b2),
    decreases b2 - a - (b - a), b - a,
{
    if b == a {
        if b2 > a {
            lemma_digits_mono(s, a, b, b2 - 1);
        }
    } else if b2 > b {
        lemma_digits_mono(s, a, b, b2 - 1);
        lemma_digits_mono(s, a, b, b);
    } else {
        lemma_digits_mono(s, a, b - 1, b - 1);
    }
}

fn p_part(s: &[u8], i: usize, x: bool) -> (r: Result<Option<(Part, usize)>, usize>)
    requires
        i <= s@.len(),
    ensures
        match r {
            Ok(pr) => match pr {
                Some(t) => parse_part(s@, i as int, x) == PPart::TOk(t.0@, t.1 as int) && i < t.1
                    <= s@.len(),
                None => parse_part(s@, i as int, x) == PPart::TNone,
            },
            Err(q) => parse_part(s@, i as int, x) == PPart::TErr(q as int),
        },
    decreases s@.len() - i, 0int,
{
    let n = s.len();
    if i >= n {
        return Ok(None);
    }
    let c = s[i];
    if c == BSLASH {
        if n - i < 2 {
            return Err(i);
        }
        let c1 = s[i + 1];
        if c1 == BSLASH {
            Ok(Some((Part::Byte(BSLASH), i + 2)))
        } else if c1 == SPACE {
            Ok(Some((Part::Byte(SPACE), i + 2)))
        } else if c1 == LX && n - i >= 4 && hex_val_of(s[i + 2]).is_some() && hex_val_of(
            s[i + 3],
        ).is_some() {
            let hi = hex_val_of(s[i + 2]).unwrap();
            let lo = hex_val_of(s[i + 3]).unwrap();
            Ok(Some((Part::Byte(16 * hi + lo), i + 4)))
        } else {
            Err(i)
        }
    } else if c == DOLLAR {
        p_ref(s, i)
    } else if c == LPAR {
        if n - i >= 2 && s[i + 1] == LPAR {
            Ok(Some((Part::Byte(LPAR), i + 2)))
        } else {
            match p_branches(s, i + 1, x) {
                Ok((bs, j)) => Ok(Some((Part::Group(bs), j))),
                Err(q) => Err(q),
            }
        }
    } else if c == RPAR {
        if n - i >= 2 && s[i + 1] == RPAR {
            Ok(Some((Part::Byte(RPAR), i + 2)))
        } else {
            Ok(None)
        }
    } else if c == BAR {
        if n - i >= 2 && s[i + 1] == BAR {
            Ok(Some((Part::Byte(BAR), i + 2)))
        } else {
            Ok(None)
        }
    } else if c == HASH && x {
        Err(i)
    } else if c <= 0x7f {
        Ok(Some((Part::Byte(c), i + 1)))
    } else {
        Err(i)
    }
}

/// The value of one hex digit, or `None` for any other byte.
fn hex_val_of(b: u8) -> (r: Option<u8>)
    ensures
        r is Some <==> is_hex(b),
        r matches Some(v) ==> v == hex_val(b) && v <= 15,
{
    if b >= D0 && b <= D9 {
        Some(b - D0)
    } else if b >= LA && b <= LF {
        Some(b - LA + 10)
    } else if b >= UA && b <= UF {
        Some(b - UA + 10)
    } else {
        None
    }
}

/// A reference marker at `i`: `parse_ref`, executed.
fn p_ref(s: &[u8], i: usize) -> (r: Result<Option<(Part, usize)>, usize>)
    requires
        i < s@.len(),
        s@[i as int] == DOLLAR,
    ensures
        match r {
            Ok(pr) => match pr {
                Some(t) => parse_ref(s@, i as int) == PPart::TOk(t.0@, t.1 as int) && i < t.1
                    <= s@.len(),
                None => parse_ref(s@, i as int) == PPart::TNone,
            },
            Err(q) => parse_ref(s@, i as int) == PPart::TErr(q as int),
        },
{
    let n = s.len();
    if n - i < 2 {
        return Err(i);
    }
    let c1 = s[i + 1];
    if c1 == DOLLAR {
        Ok(Some((Part::Byte(DOLLAR), i + 2)))
    } else if c1 >= D0 && c1 <= D9 {
        proof {
            lemma_scan_digits(s@, i + 1);
        }
        let ghost dend = scan_digits(s@, i as int + 1);
        let mut j = i + 1;
        let mut val: usize = 0;
        while j < n && s[j] >= D0 && s[j] <= D9
            invariant
                i + 1 <= j <= n,
                n == s@.len(),
                dend == scan_digits(s@, j as int),
                dend == scan_digits(s@, i as int + 1),
                i + 1 <= dend <= n,
                j <= dend,
                forall|k: int| i + 1 <= k < dend ==> is_digit(s@[k]),
                val == digits_val(s@, i as int + 1, j as int),
            decreases n - j,
        {
            proof {
                assert(scan_digits(s@, j as int) == scan_digits(s@, j + 1));
                lemma_scan_digits(s@, j + 1);
            }
            let d = s[j] - D0;
            let next = match val.checked_mul(10) {
                Some(v10) => v10.checked_add(d as usize),
                None => None,
            };
            match next {
                Some(v2) => {
                    val = v2;
                },
                None => {
                    proof {
                        assert(digits_val(s@, i as int + 1, j + 1) == val * 10 + d);
                        assert(digits_val(s@, i as int + 1, j + 1) > usize::MAX as int);
                        lemma_digits_mono(s@, i as int + 1, j + 1, dend as int);
                    }
                    return Err(i);
                },
            }
            j += 1;
        }
        assert(j == dend);
        Ok(Some((Part::RepId(val), j)))
    } else if c1 == LT {
        let mut j = i + 2;
        while j < n && s[j] != GT && s[j] != RBRACE
            invariant
                i + 2 <= j <= n,
                n == s@.len(),
                scan_name(s@, i as int + 2) == scan_name(s@, j as int),
            decreases n - j,
        {
            j += 1;
        }
        assert(j as int == scan_name(s@, i as int + 2));
        if j < n && s[j] == GT && j > i + 2 {
            let name = slice_to_vec(s, i + 2, j);
            Ok(Some((Part::RepName(name), j + 1)))
        } else {
            Err(i)
        }
    } else {
        Err(i)
    }
}

fn p_parts(s: &[u8], i: usize, x: bool) -> (r: Result<(Vec<Part>, usize), usize>)
    requires
        i <= s@.len(),
    ensures
        match r {
            Ok(t) => parse_parts(s@, i as int, x) == PParts::POk(parts_view(t.0@), t.1 as int) && i
                < t.1 <= s@.len(),
            Err(q) => parse_parts(s@, i as int, x) == PParts::PErr(q as int),
        },
    decreases s@.len() - i, 1int,
{
    match p_part(s, i, x) {
        Err(q) => Err(q),
        Ok(None) => Err(i),
        Ok(Some((part0, j0))) => {
            let mut acc: Vec<Part> = Vec::new();
            let ghost pv0 = part0@;
            acc.push(part0);
            proof {
                lemma_parts_view(acc@);
                assert(parts_view(acc@) =~= seq![pv0]);
            }
            let mut cur = j0;
            loop
                invariant
                    i < cur <= s@.len(),
                    parse_parts(s@, i as int, x) == parse_parts_loop(
                        s@,
                        cur as int,
                        x,
                        parts_view(acc@),
                    ),
                decreases s@.len() - cur,
            {
                let p = exec_skip_ws(s, cur, x);
                match p_part(s, p, x) {
                    Err(q) => {
                        return Err(q);
                    },
                    Ok(None) => {
                        return Ok((acc, p));
                    },
                    Ok(Some((part, j2))) => {
                        let ghost prev = acc@;
                        acc.push(part);
                        proof {
                            assert(acc@.drop_last() =~= prev);
                            assert(parts_view(acc@) =~= parts_view(prev).push(
                                part_view(acc@.last()),
                            ));
                        }
                        cur = j2;
                    },
                }
            }
        },
    }
}

fn p_branches(s: &[u8], i: usize, x: bool) -> (r: Result<(Vec<Replacement>, usize), usize>)
    requires
        i <= s@.len(),
    ensures
        match r {
            Ok(t) => parse_branches(s@, i as int, x) == GRes::GOk(templates_view(t.0@), t.1 as int)
                && i < t.1 <= s@.len(),
            Err(q) => parse_branches(s@, i as int, x) == GRes::GErr(q as int),
        },
    decreases s@.len() - i, 4int,
{
    let n = s.len();
    let p0 = exec_skip_ws(s, i, x);
    if p0 < n && s[p0] == RPAR {
        let out: Vec<Replacement> = Vec::new();
        proof {
            assert(templates_view(out@) =~= Seq::<Seq<PartV>>::empty());
        }
        return Ok((out, p0 + 1));
    }
    let mut acc: Vec<Replacement> = Vec::new();
    let mut cur = p0;
    proof {
        assert(templates_view(acc@) =~= Seq::<Seq<PartV>>::empty());
    }
    loop
        invariant
            i <= cur <= n,
            n == s@.len(),
            parse_branches(s@, i as int, x) == parse_branches_loop(
                s@,
                cur as int,
                x,
                templates_view(acc@),
            ),
        decreases n - cur,
    {
        match p_parts(s, cur, x) {
            Err(q) => {
                return Err(q);
            },
            Ok((parts, p)) => {
                if p >= n {
                    return Err(p);
                }
                let ch = s[p];
                if ch == RPAR {
                    let ghost prev = acc@;
                    acc.push(Replacement(parts));
                    proof {
                        assert(acc@.drop_last() =~= prev);
                        assert(templates_view(acc@) =~= templates_view(prev).push(
                            template_view(acc@.last()),
                        ));
                    }
                    return Ok((acc, p + 1));
                } else if ch == BAR {
                    let q2 = exec_skip_ws(s, p + 1, x);
                    let ghost prev = acc@;
                    acc.push(Replacement(parts));
                    proof {
                        assert(acc@.drop_last() =~= prev);
                        assert(templates_view(acc@) =~= templates_view(prev).push(
                            template_view(acc@.last()),
                        ));
                    }
                    cur = q2;
                } else {
                    return Err(p);
                }
            },
        }
    }
}

/// Parse a whole template text into a template, or report the byte offset
/// where parsing failed.
pub fn parse_template(text: &[u8]) -> (r: Result<Replacement, eval::Error>)
    ensures
        match r {
            Ok(t) => spec_parse(text@) == Ok::<Seq<PartV>, int>(t@),
            Err(e) => e matches eval::Error::Parse(q) && spec_parse(text@) == Err::<
                Seq<PartV>,
                int,
            >(q as int),
        },
{
    let n = text.len();
    let x = n >= 4 && text[0] == LPAR && text[1] == QMARK && text[2] == LX && text[3] == RPAR;
    let start: usize = if x {
        4
    } else {
        0
    };
    let p0 = exec_skip_ws(text, start, x);
    match p_parts(text, p0, x) {
        Err(q) => Err(eval::Error::Parse(q)),
        Ok((parts, p)) => {
            if p == n {
                Ok(Replacement(parts))
            } else {
                Err(eval::Error::Parse(p))
            }
        },
    }
}

/// The marker byte of one hex-digit value.
pub open spec fn hex_digit(d: u8) -> u8 {
    if d < 10 {
        (D0 + d) as u8
    } else {
        (LA + d - 10) as u8
    }
}

/// Round-trip literal escaping: any byte of the literal range written in
/// its hex-escape form parses to a single-literal template whose
/// evaluation against any capture source yields exactly that byte.
pub proof fn lemma_hex_escape_round_trip<C: Capture>(v: u8, c: &C)
    requires
        v <= 0x7f,
    ensures
        ({
            let txt = seq![BSLASH, LX, hex_digit(v / 16), hex_digit(v % 16)];
            &&& spec_parse(txt) == Ok::<Seq<PartV>, int>(seq![PartV::Byte(v)])
            &&& eval_parts(seq![PartV::Byte(v)], c) == Ok::<Seq<u8>, ErrV>(seq![v])
        }),
{
    let txt = seq![BSLASH, LX, hex_digit(v / 16), hex_digit(v % 16)];
    let hi = hex_digit(v / 16);
    let lo = hex_digit(v % 16);
    assert(is_hex(hi));
    assert(is_hex(lo));
    assert(hex_val(hi) == v / 16);
    assert(hex_val(lo) == v % 16);
    assert(16 * (v / 16) + (v % 16) == v);
    assert(parse_escape(txt, 0) == PPart::TOk(PartV::Byte(v), 4));
    assert(parse_part(txt, 0, false) == PPart::TOk(PartV::Byte(v), 4));
    assert(skip_ws(txt, 4, false) == 4);
    assert(parse_part(txt, 4, false) == PPart::TNone);
    assert(parse_parts_loop(txt, 4, false, seq![PartV::Byte(v)]) == PParts::POk(
        seq![PartV::Byte(v)],
        4,
    ));
    assert(parse_parts(txt, 0, false) == PParts::POk(seq![PartV::Byte(v)], 4));
    assert(txt[0] != LPAR);
    assert(skip_ws(txt, 0, false) == 0);
    assert(spec_parse(txt) == Ok::<Seq<PartV>, int>(seq![PartV::Byte(v)]));
    let single = seq![PartV::Byte(v)];
    assert(single.drop_last() =~= Seq::<PartV>::empty());
    assert(eval_parts(Seq::<PartV>::empty(), c) == Ok::<Seq<u8>, ErrV>(Seq::empty()));
    assert(single.last() == PartV::Byte(v));
    assert(eval_part(PartV::Byte(v), c) == Ok::<Seq<u8>, ErrV>(seq![v]));
    assert(Seq::<u8>::empty() + seq![v] =~= seq![v]);
}

} // verus!
