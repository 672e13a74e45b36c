//! The persisted form of a `Sim`: a little-endian byte document holding
//! the palette, the rule list and the symmetry record, each section
//! optional with a documented default, and its parser.
//!
//! Writing then reading reproduces the value exactly (`lemma_round_trip`);
//! a corrupt document falls back to the built-in starting state.

use vstd::prelude::*;
use vstd::bytes::{
    lemma_auto_spec_u32_to_from_le_bytes, lemma_auto_spec_u64_to_from_le_bytes,
    spec_u32_from_le_bytes, spec_u32_to_le_bytes, spec_u64_from_le_bytes, spec_u64_to_le_bytes,
    u32_from_le_bytes, u32_to_le_bytes, u64_from_le_bytes, u64_to_le_bytes,
};
use vstd::slice::slice_subrange;
use vstd::string::StrSliceExecFns;
use vstd::utf8::{char_is_scalar, char_u32_cast, is_scalar};
use crate::block::Block;
use crate::palette::{Element, ElementV, Rgba, SimIntrinsics, Symmetry, palette_view};
use crate::table::{Rule, table_in_range, unique_keys};
use crate::sim::{Sim, SimV, starting_v};

verus! {

// ---------------------------------------------------------------------
// The document's shape, as sequences of bytes.
// ---------------------------------------------------------------------
/// A length or palette index, as eight little-endian bytes.
pub open spec fn enc_u64(v: u64) -> Seq<u8> {
    spec_u64_to_le_bytes(v)
}

/// One character's code point, as four little-endian bytes.
pub open spec fn enc_u32(v: u32) -> Seq<u8> {
    spec_u32_to_le_bytes(v)
}

/// A name: its characters' code points in order (the count stands before).
pub open spec fn enc_chars(name: Seq<char>) -> Seq<u8>
    decreases name.len(),
{
    if name.len() == 0 {
        Seq::empty()
    } else {
        enc_chars(name.drop_last()) + enc_u32(name.last() as u32)
    }
}

/// One palette element: four color channels, then the name's character
/// count, then the name.
pub open spec fn enc_element(e: ElementV) -> Seq<u8> {
    seq![e.color.r, e.color.g, e.color.b, e.color.a] + (enc_u64(e.name.len() as u64) + enc_chars(
        e.name,
    ))
}

/// The palette elements in order (the count stands before).
pub open spec fn enc_elements(p: Seq<ElementV>) -> Seq<u8>
    decreases p.len(),
{
    if p.len() == 0 {
        Seq::empty()
    } else {
        enc_elements(p.drop_last()) + enc_element(p.last())
    }
}

/// A block: its four indices, row-major.
pub open spec fn enc_block(b: Block) -> Seq<u8> {
    enc_u64(b.a as u64) + (enc_u64(b.b as u64) + (enc_u64(b.c as u64) + enc_u64(b.d as u64)))
}

/// A rule: its input block, then its output block.
pub open spec fn enc_rule(r: Rule) -> Seq<u8> {
    enc_block(r.input) + enc_block(r.output)
}

/// The stored rules in order (the count stands before).
pub open spec fn enc_rules(rs: Seq<Rule>) -> Seq<u8>
    decreases rs.len(),
{
    if rs.len() == 0 {
        Seq::empty()
    } else {
        enc_rules(rs.drop_last()) + enc_rule(rs.last())
    }
}

/// The whole document: a flags byte announcing which sections are present
/// (the writer always writes all three), then the palette, the rules, and
/// the symmetry byte.
pub open spec fn enc_sim(v: SimV) -> Seq<u8> {
    seq![7u8] + (enc_u64(v.palette.len() as u64) + (enc_elements(v.palette) + (enc_u64(
        v.rules.len() as u64,
    ) + (enc_rules(v.rules) + seq![(if v.horizontal {
        1u8
    } else {
        0u8
    })]))))
}

// ---------------------------------------------------------------------
// The parser, over byte sequences.
// ---------------------------------------------------------------------
pub open spec fn parse_byte(b: Seq<u8>, pos: int) -> Option<(u8, int)> {
    if 0 <= pos < b.len() {
        Some((b[pos], pos + 1))
    } else {
        None
    }
}

pub open spec fn parse_u64(b: Seq<u8>, pos: int) -> Option<(u64, int)> {
    if 0 <= pos && pos + 8 <= b.len() {
        Some((spec_u64_from_le_bytes(b.subrange(pos, pos + 8)), pos + 8))
    } else {
        None
    }
}

pub open spec fn parse_u32(b: Seq<u8>, pos: int) -> Option<(u32, int)> {
    if 0 <= pos && pos + 4 <= b.len() {
        Some((spec_u32_from_le_bytes(b.subrange(pos, pos + 4)), pos + 4))
    } else {
        None
    }
}

/// A length or index: a `u64` that must fit the machine's `usize`.
pub open spec fn parse_usize(b: Seq<u8>, pos: int) -> Option<(usize, int)> {
    match parse_u64(b, pos) {
        Some((v, p)) => if v <= usize::MAX as u64 {
            Some((v as usize, p))
        } else {
            None
        },
        None => None,
    }
}

/// A character: a code point that must be a Unicode scalar.
pub open spec fn parse_char(b: Seq<u8>, pos: int) -> Option<(char, int)> {
    match parse_u32(b, pos) {
        Some((v, p)) => if is_scalar(v) {
            Some((v as char, p))
        } else {
            None
        },
        None => None,
    }
}

pub open spec fn parse_chars(b: Seq<u8>, pos: int, count: nat) -> Option<(Seq<char>, int)>
    decreases count,
{
    if count == 0 {
        Some((Seq::empty(), pos))
    } else {
        match parse_chars(b, pos, (count - 1) as nat) {
            Some((s, p)) => match parse_char(b, p) {
                Some((c, p2)) => Some((s.push(c), p2)),
                None => None,
            },
            None => None,
        }
    }
}

pub open spec fn parse_element(b: Seq<u8>, pos: int) -> Option<(ElementV, int)> {
    match parse_byte(b, pos) {
        Some((cr, p1)) => match parse_byte(b, p1) {
            Some((cg, p2)) => match parse_byte(b, p2) {
                Some((cb, p3)) => match parse_byte(b, p3) {
                    Some((ca, p4)) => match parse_usize(b, p4) {
                        Some((n, p5)) => match parse_chars(b, p5, n as nat) {
                            Some((name, p6)) => Some(
                                (ElementV { color: Rgba { r: cr, g: cg, b: cb, a: ca }, name }, p6),
                            ),
                            None => None,
                        },
                        None => None,
                    },
                    None => None,
                },
                None => None,
            },
            None => None,
        },
        None => None,
    }
}

pub open spec fn parse_elements(b: Seq<u8>, pos: int, count: nat) -> Option<(Seq<ElementV>, int)>
    decreases count,
{
    if count == 0 {
        Some((Seq::empty(), pos))
    } else {
        match parse_elements(b, pos, (count - 1) as nat) {
            Some((s, p)) => match parse_element(b, p) {
                Some((e, p2)) => Some((s.push(e), p2)),
                None => None,
            },
            None => None,
        }
    }
}

pub open spec fn parse_block(b: Seq<u8>, pos: int) -> Option<(Block, int)> {
    match parse_usize(b, pos) {
        Some((a, p1)) => match parse_usize(b, p1) {
            Some((bb, p2)) => match parse_usize(b, p2) {
                Some((c, p3)) => match parse_usize(b, p3) {
                    Some((d, p4)) => Some((Block { a, b: bb, c, d }, p4)),
                    None => None,
                },
                None => None,
            },
            None => None,
        },
        None => None,
    }
}

pub open spec fn parse_rule(b: Seq<u8>, pos: int) -> Option<(Rule, int)> {
    match parse_block(b, pos) {
        Some((input, p1)) => match parse_block(b, p1) {
            Some((output, p2)) => Some((Rule { input, output }, p2)),
            None => None,
        },
        None => None,
    }
}

pub open spec fn parse_rules(b: Seq<u8>, pos: int, count: nat) -> Option<(Seq<Rule>, int)>
    decreases count,
{
    if count == 0 {
        Some((Seq::empty(), pos))
    } else {
        match parse_rules(b, pos, (count - 1) as nat) {
            Some((s, p)) => match parse_rule(b, p) {
                Some((r, p2)) => Some((s.push(r), p2)),
                None => None,
            },
            None => None,
        }
    }
}

/// The whole document. A section whose flag bit is clear takes its
/// default: the built-in palette, no rules, the mirror enabled. Bytes
/// after the last announced section are ignored.
pub open spec fn parse_sim(b: Seq<u8>) -> Option<SimV> {
    match parse_byte(b, 0) {
        Some((flags, p0)) => {
            let pal = if flags & 1 != 0 {
                match parse_usize(b, p0) {
                    Some((cnt, p)) => parse_elements(b, p, cnt as nat),
                    None => None,
                }
            } else {
                Some((SimIntrinsics::spec_default_palette(), p0))
            };
            match pal {
                Some((palette, p1)) => {
                    let rl = if flags & 2 != 0 {
                        match parse_usize(b, p1) {
                            Some((cnt, p)) => parse_rules(b, p, cnt as nat),
                            None => None,
                        }
                    } else {
                        Some((Seq::empty(), p1))
                    };
                    match rl {
                        Some((rules, p2)) => {
                            let sy = if flags & 4 != 0 {
                                match parse_byte(b, p2) {
                                    Some((x, p)) => if x == 1 {
                                        Some((true, p))
                                    } else if x == 0 {
                                        Some((false, p))
                                    } else {
                                        None
                                    },
                                    None => None,
                                }
                            } else {
                                Some((true, p2))
                            };
                            match sy {
                                Some((horizontal, _)) => Some(SimV { palette, rules, horizontal }),
                                None => None,
                            }
                        },
                        None => None,
                    }
                },
                None => None,
            }
        },
        None => None,
    }
}

// ---------------------------------------------------------------------
// The round trip: parsing what was encoded gives the value back.
// ---------------------------------------------------------------------
/// The bytes of `b` from `pos` on.
pub open spec fn suffix_at(b: Seq<u8>, pos: int) -> Seq<u8>
    recommends
        0 <= pos <= b.len(),
{
    b.subrange(pos, b.len() as int)
}

proof fn lemma_split_suffix(b: Seq<u8>, pos: int, s: Seq<u8>, t: Seq<u8>)
    requires
        0 <= pos <= b.len(),
        suffix_at(b, pos) == s + t,
    ensures
        pos + s.len() <= b.len(),
        b.subrange(pos, pos + s.len() as int) == s,
        suffix_at(b, pos + s.len() as int) == t,
{
    assert(suffix_at(b, pos).len() == b.len() - pos);
    assert((s + t).len() == s.len() + t.len());
    assert(pos + s.len() <= b.len());
    assert forall|i: int| 0 <= i < s.len() implies b.subrange(pos, pos + s.len() as int)[i]
        == s[i] by {
        assert(s[i] == (s + t)[i]);
        assert(suffix_at(b, pos)[i] == b[pos + i]);
    }
    assert(b.subrange(pos, pos + s.len() as int) =~= s);
    assert forall|i: int| 0 <= i < t.len() implies suffix_at(b, pos + s.len() as int)[i]
        == t[i] by {
        assert(t[i] == (s + t)[s.len() + i]);
        assert(suffix_at(b, pos)[s.len() + i] == b[pos + s.len() + i]);
    }
    assert(suffix_at(b, pos + s.len() as int) =~= t);
}

proof fn lemma_parse_byte_of_enc(b: Seq<u8>, pos: int, x: u8, rest: Seq<u8>)
    requires
        0 <= pos <= b.len(),
        suffix_at(b, pos) == seq![x] + rest,
    ensures
        parse_byte(b, pos) == Some((x, pos + 1)),
        pos + 1 <= b.len(),
        suffix_at(b, pos + 1) == rest,
{
    lemma_split_suffix(b, pos, seq![x], rest);
    assert(b.subrange(pos, pos + 1)[0] == b[pos]);
}

proof fn lemma_parse_u64_of_enc(b: Seq<u8>, pos: int, v: u64, rest: Seq<u8>)
    requires
        0 <= pos <= b.len(),
        suffix_at(b, pos) == enc_u64(v) + rest,
    ensures
        parse_u64(b, pos) == Some((v, pos + 8)),
        pos + 8 <= b.len(),
        suffix_at(b, pos + 8) == rest,
{
    lemma_auto_spec_u64_to_from_le_bytes();
    lemma_split_suffix(b, pos, enc_u64(v), rest);
}

proof fn lemma_parse_u32_of_enc(b: Seq<u8>, pos: int, v: u32, rest: Seq<u8>)
    requires
        0 <= pos <= b.len(),
        suffix_at(b, pos) == enc_u32(v) + rest,
    ensures
        parse_u32(b, pos) == Some((v, pos + 4)),
        pos + 4 <= b.len(),
        suffix_at(b, pos + 4) == rest,
{
    lemma_auto_spec_u32_to_from_le_bytes();
    lemma_split_suffix(b, pos, enc_u32(v), rest);
}

proof fn lemma_parse_usize_of_enc(b: Seq<u8>, pos: int, n: nat, rest: Seq<u8>)
    requires
        0 <= pos <= b.len(),
        n <= usize::MAX,
        suffix_at(b, pos) == enc_u64(n as u64) + rest,
    ensures
        parse_usize(b, pos) == Some((n as usize, pos + 8)),
        pos + 8 <= b.len(),
        suffix_at(b, pos + 8) == rest,
{
    lemma_parse_u64_of_enc(b, pos, n as u64, rest);
}

proof fn lemma_parse_char_of_enc(b: Seq<u8>, pos: int, c: char, rest: Seq<u8>)
    requires
        0 <= pos <= b.len(),
        suffix_at(b, pos) == enc_u32(c as u32) + rest,
    ensures
        parse_char(b, pos) == Some((c, pos + 4)),
        pos + 4 <= b.len(),
        suffix_at(b, pos + 4) == rest,
{
    lemma_parse_u32_of_enc(b, pos, c as u32, rest);
    char_is_scalar(c);
    char_u32_cast(c, c as u32);
}

proof fn lemma_parse_chars_of_enc(b: Seq<u8>, pos: int, name: Seq<char>, rest: Seq<u8>)
    requires
        0 <= pos <= b.len(),
        suffix_at(b, pos) == enc_chars(name) + rest,
    ensures
        parse_chars(b, pos, name.len()) == Some((name, pos + enc_chars(name).len())),
        pos + enc_chars(name).len() <= b.len(),
        suffix_at(b, pos + enc_chars(name).len() as int) == rest,
    decreases name.len(),
{
    if name.len() == 0 {
        assert(enc_chars(name) == Seq::<u8>::empty());
        assert(suffix_at(b, pos) =~= rest);
        assert(parse_chars(b, pos, 0) == Some((Seq::<char>::empty(), pos)));
        assert(name =~= Seq::<char>::empty());
    } else {
        let front = name.drop_last();
        let c = name.last();
        lemma_auto_spec_u32_to_from_le_bytes();
        assert(enc_chars(name) == enc_chars(front) + enc_u32(c as u32));
        assert(enc_chars(name) + rest =~= enc_chars(front) + (enc_u32(c as u32) + rest));
        lemma_parse_chars_of_enc(b, pos, front, enc_u32(c as u32) + rest);
        let mid = pos + enc_chars(front).len();
        lemma_parse_char_of_enc(b, mid, c, rest);
        assert(front.push(c) =~= name);
    }
}

proof fn lemma_parse_element_of_enc(b: Seq<u8>, pos: int, e: ElementV, rest: Seq<u8>)
    requires
        0 <= pos <= b.len(),
        e.name.len() <= usize::MAX,
        suffix_at(b, pos) == enc_element(e) + rest,
    ensures
        parse_element(b, pos) == Some((e, pos + enc_element(e).len())),
        pos + enc_element(e).len() <= b.len(),
        suffix_at(b, pos + enc_element(e).len() as int) == rest,
{
    let color = seq![e.color.r, e.color.g, e.color.b, e.color.a];
    let lenb = enc_u64(e.name.len() as u64);
    let nameb = enc_chars(e.name);
    assert(enc_element(e) == color + (lenb + nameb));
    assert(enc_element(e) + rest =~= seq![e.color.r] + (seq![e.color.g] + (seq![e.color.b] + (seq![
        e.color.a,
    ] + (lenb + (nameb + rest))))));
    lemma_parse_byte_of_enc(b, pos, e.color.r, seq![e.color.g] + (seq![e.color.b] + (seq![
        e.color.a,
    ] + (lenb + (nameb + rest)))));
    lemma_parse_byte_of_enc(b, pos + 1, e.color.g, seq![e.color.b] + (seq![e.color.a] + (lenb + (
    nameb + rest))));
    lemma_parse_byte_of_enc(b, pos + 2, e.color.b, seq![e.color.a] + (lenb + (nameb + rest)));
    lemma_parse_byte_of_enc(b, pos + 3, e.color.a, lenb + (nameb + rest));
    lemma_parse_usize_of_enc(b, pos + 4, e.name.len(), nameb + rest);
    lemma_parse_chars_of_enc(b, pos + 12, e.name, rest);
    assert(enc_element(e).len() == 12 + nameb.len()) by {
        lemma_auto_spec_u64_to_from_le_bytes();
    }
}

proof fn lemma_parse_elements_of_enc(b: Seq<u8>, pos: int, p: Seq<ElementV>, rest: Seq<u8>)
    requires
        0 <= pos <= b.len(),
        forall|i: int| 0 <= i < p.len() ==> (#[trigger] p[i]).name.len() <= usize::MAX,
        suffix_at(b, pos) == enc_elements(p) + rest,
    ensures
        parse_elements(b, pos, p.len()) == Some((p, pos + enc_elements(p).len())),
        pos + enc_elements(p).len() <= b.len(),
        suffix_at(b, pos + enc_elements(p).len() as int) == rest,
    decreases p.len(),
{
    if p.len() == 0 {
        assert(enc_elements(p) == Seq::<u8>::empty());
        assert(suffix_at(b, pos) =~= rest);
        assert(p =~= Seq::<ElementV>::empty());
    } else {
        let front = p.drop_last();
        let e = p.last();
        assert(enc_elements(p) == enc_elements(front) + enc_element(e));
        assert(enc_elements(p) + rest =~= enc_elements(front) + (enc_element(e) + rest));
        lemma_parse_elements_of_enc(b, pos, front, enc_element(e) + rest);
        let mid = pos + enc_elements(front).len();
        lemma_parse_element_of_enc(b, mid, e, rest);
        assert(front.push(e) =~= p);
    }
}

proof fn lemma_parse_block_of_enc(b: Seq<u8>, pos: int, blk: Block, rest: Seq<u8>)
    requires
        0 <= pos <= b.len(),
        suffix_at(b, pos) == enc_block(blk) + rest,
    ensures
        parse_block(b, pos) == Some((blk, pos + 32)),
        pos + 32 <= b.len(),
        enc_block(blk).len() == 32,
        suffix_at(b, pos + 32) == rest,
{
    lemma_auto_spec_u64_to_from_le_bytes();
    assert(enc_block(blk) + rest =~= enc_u64(blk.a as u64) + (enc_u64(blk.b as u64) + (enc_u64(
        blk.c as u64,
    ) + (enc_u64(blk.d as u64) + rest))));
    lemma_parse_usize_of_enc(
        b,
        pos,
        blk.a as nat,
        enc_u64(blk.b as u64) + (enc_u64(blk.c as u64) + (enc_u64(blk.d as u64) + rest)),
    );
    lemma_parse_usize_of_enc(
        b,
        pos + 8,
        blk.b as nat,
        enc_u64(blk.c as u64) + (enc_u64(blk.d as u64) + rest),
    );
    lemma_parse_usize_of_enc(b, pos + 16, blk.c as nat, enc_u64(blk.d as u64) + rest);
    lemma_parse_usize_of_enc(b, pos + 24, blk.d as nat, rest);
}

proof fn lemma_parse_rule_of_enc(b: Seq<u8>, pos: int, r: Rule, rest: Seq<u8>)
    requires
        0 <= pos <= b.len(),
        suffix_at(b, pos) == enc_rule(r) + rest,
    ensures
        parse_rule(b, pos) == Some((r, pos + 64)),
        pos + 64 <= b.len(),
        enc_rule(r).len() == 64,
        suffix_at(b, pos + 64) == rest,
{
    assert(enc_rule(r) + rest =~= enc_block(r.input) + (enc_block(r.output) + rest));
    lemma_parse_block_of_enc(b, pos, r.input, enc_block(r.output) + rest);
    lemma_parse_block_of_enc(b, pos + 32, r.output, rest);
}

proof fn lemma_parse_rules_of_enc(b: Seq<u8>, pos: int, rs: Seq<Rule>, rest: Seq<u8>)
    requires
        0 <= pos <= b.len(),
        suffix_at(b, pos) == enc_rules(rs) + rest,
    ensures
        parse_rules(b, pos, rs.len()) == Some((rs, pos + enc_rules(rs).len())),
        pos + enc_rules(rs).len() <= b.len(),
        suffix_at(b, pos + enc_rules(rs).len() as int) == rest,
    decreases rs.len(),
{
    if rs.len() == 0 {
        assert(enc_rules(rs) == Seq::<u8>::empty());
        assert(suffix_at(b, pos) =~= rest);
        assert(rs =~= Seq::<Rule>::empty());
    } else {
        let front = rs.drop_last();
        let r = rs.last();
        assert(enc_rules(rs) == enc_rules(front) + enc_rule(r));
        assert(enc_rules(rs) + rest =~= enc_rules(front) + (enc_rule(r) + rest));
        lemma_parse_rules_of_enc(b, pos, front, enc_rule(r) + rest);
        let mid = pos + enc_rules(front).len();
        lemma_parse_rule_of_enc(b, mid, r, rest);
        assert(front.push(r) =~= rs);
    }
}

/// Law: round trip. Parsing a written document gives back exactly the
/// value that was written: same palette entries in order, same rule
/// entries in order, same symmetry flag.
pub proof fn lemma_round_trip(v: SimV)
    requires
        v.palette.len() <= usize::MAX,
        v.rules.len() <= usize::MAX,
        forall|i: int| 0 <= i < v.palette.len() ==> (#[trigger] v.palette[i]).name.len()
            <= usize::MAX,
    ensures
        parse_sim(enc_sim(v)) == Some(v),
{
    let b = enc_sim(v);
    let hb: u8 = if v.horizontal {
        1u8
    } else {
        0u8
    };
    let palb = enc_u64(v.palette.len() as u64);
    let pale = enc_elements(v.palette);
    let rulb = enc_u64(v.rules.len() as u64);
    let rule = enc_rules(v.rules);
    assert(suffix_at(b, 0) =~= b);
    assert(b =~= seq![7u8] + (palb + (pale + (rulb + (rule + (seq![hb] + Seq::<u8>::empty()))))));
    lemma_parse_byte_of_enc(b, 0, 7u8, palb + (pale + (rulb + (rule + (seq![hb]
        + Seq::<u8>::empty())))));
    assert(7u8 & 1 != 0 && 7u8 & 2 != 0 && 7u8 & 4 != 0) by (bit_vector);
    lemma_parse_usize_of_enc(b, 1, v.palette.len(), pale + (rulb + (rule + (seq![hb]
        + Seq::<u8>::empty()))));
    lemma_parse_elements_of_enc(b, 9, v.palette, rulb + (rule + (seq![hb] + Seq::<u8>::empty())));
    let p1 = 9 + pale.len() as int;
    lemma_parse_usize_of_enc(b, p1, v.rules.len(), rule + (seq![hb] + Seq::<u8>::empty()));
    lemma_parse_rules_of_enc(b, p1 + 8, v.rules, seq![hb] + Seq::<u8>::empty());
    let p2 = p1 + 8 + rule.len() as int;
    lemma_parse_byte_of_enc(b, p2, hb, Seq::<u8>::empty());
}

// ---------------------------------------------------------------------
// Writing a document.
// ---------------------------------------------------------------------
fn write_u64(out: &mut Vec<u8>, v: u64)
    ensures
        final(out)@ == old(out)@ + enc_u64(v),
{
    let mut bytes = u64_to_le_bytes(v);
    out.append(&mut bytes);
}

fn write_u32(out: &mut Vec<u8>, v: u32)
    ensures
        final(out)@ == old(out)@ + enc_u32(v),
{
    let mut bytes = u32_to_le_bytes(v);
    out.append(&mut bytes);
}

fn write_element(e: &Element, out: &mut Vec<u8>)
    ensures
        final(out)@ == old(out)@ + enc_element(e@),
{
    out.push(e.color.r);
    out.push(e.color.g);
    out.push(e.color.b);
    out.push(e.color.a);
    let n = e.name.as_str().unicode_len();
    write_u64(out, n as u64);
    let ghost base = out@;
    proof {
        assert(base =~= old(out)@ + (seq![
            e.color.r,
            e.color.g,
            e.color.b,
            e.color.a,
        ] + enc_u64(e.name@.len() as u64)));
    }
    let mut k: usize = 0;
    while k < n
        invariant
            k <= n,
            n == e.name@.len(),
            out@ == base + enc_chars(e.name@.take(k as int)),
        decreases n - k,
    {
        let c = e.name.as_str().get_char(k);
        write_u32(out, c as u32);
        proof {
            let taken = e.name@.take(k as int + 1);
            assert(taken.drop_last() =~= e.name@.take(k as int));
            assert(taken.last() == e.name@[k as int]);
            assert(out@ =~= base + enc_chars(taken));
        }
        k = k + 1;
    }
    proof {
        assert(e.name@.take(n as int) =~= e.name@);
        assert(out@ =~= old(out)@ + enc_element(e@));
    }
}

fn write_block(b: Block, out: &mut Vec<u8>)
    ensures
        final(out)@ == old(out)@ + enc_block(b),
{
    write_u64(out, b.a as u64);
    write_u64(out, b.b as u64);
    write_u64(out, b.c as u64);
    write_u64(out, b.d as u64);
    proof {
        assert(out@ =~= old(out)@ + enc_block(b));
    }
}

fn write_rule(r: Rule, out: &mut Vec<u8>)
    ensures
        final(out)@ == old(out)@ + enc_rule(r),
{
    write_block(r.input, out);
    write_block(r.output, out);
    proof {
        assert(out@ =~= old(out)@ + enc_rule(r));
    }
}

/// Write the whole `Sim` as a byte document.
pub fn serialize(sim: &Sim) -> (out: Vec<u8>)
    ensures
        out@ == enc_sim(sim@),
{
    let mut out: Vec<u8> = Vec::new();
    out.push(7u8);
    let ne = sim.num_elements();
    write_u64(&mut out, ne as u64);
    let ghost base1 = out@;
    let els = sim.elements();
    let mut i: usize = 0;
    while i < ne
        invariant
            i <= ne,
            ne == sim@.palette.len(),
            palette_view(els@) == sim@.palette,
            ne == els@.len(),
            out@ == base1 + enc_elements(sim@.palette.take(i as int)),
        decreases ne - i,
    {
        write_element(&els[i], &mut out);
        proof {
            assert(els@[i as int]@ == sim@.palette[i as int]);
            let taken = sim@.palette.take(i as int + 1);
            assert(taken.drop_last() =~= sim@.palette.take(i as int));
            assert(taken.last() == sim@.palette[i as int]);
            assert(out@ =~= base1 + enc_elements(taken));
        }
        i = i + 1;
    }
    proof {
        assert(sim@.palette.take(ne as int) =~= sim@.palette);
    }
    let nr = sim.num_rules();
    write_u64(&mut out, nr as u64);
    let ghost base2 = out@;
    let rs = sim.rules();
    let mut j: usize = 0;
    while j < nr
        invariant
            j <= nr,
            nr == sim@.rules.len(),
            rs@ == sim@.rules,
            out@ == base2 + enc_rules(sim@.rules.take(j as int)),
        decreases nr - j,
    {
        write_rule(rs[j], &mut out);
        proof {
            let taken = sim@.rules.take(j as int + 1);
            assert(taken.drop_last() =~= sim@.rules.take(j as int));
            assert(taken.last() == sim@.rules[j as int]);
            assert(out@ =~= base2 + enc_rules(taken));
        }
        j = j + 1;
    }
    proof {
        assert(sim@.rules.take(nr as int) =~= sim@.rules);
    }
    if sim.symmetry().horizontal {
        out.push(1u8);
    } else {
        out.push(0u8);
    }
    proof {
        assert(out@ =~= enc_sim(sim@));
    }
    out
}

// ---------------------------------------------------------------------
// Reading a document.
// ---------------------------------------------------------------------
/// Relies on char::from_u32: `Some` exactly for Unicode scalar values
/// (not a surrogate, at most 0x10FFFF), returning that scalar.
#[verifier::external_body]
fn char_from_u32(v: u32) -> (r: Option<char>)
    ensures
        r == (if is_scalar(v) {
            Some(v as char)
        } else {
            None::<char>
        }),
{
    char::from_u32(v)
}

/// Relies on String::push: appends exactly the one character.
#[verifier::external_body]
fn push_char(s: &mut String, c: char)
    ensures
        final(s)@ == old(s)@.push(c),
{
    s.push(c);
}

fn read_byte(bytes: &Vec<u8>, pos: usize) -> (r: Option<(u8, usize)>)
    ensures
        match r {
            Some((x, p)) => parse_byte(bytes@, pos as int) == Some((x, p as int)),
            None => parse_byte(bytes@, pos as int) is None,
        },
{
    if pos < bytes.len() {
        Some((bytes[pos], pos + 1))
    } else {
        None
    }
}

fn read_u64(bytes: &Vec<u8>, pos: usize) -> (r: Option<(u64, usize)>)
    ensures
        match r {
            Some((v, p)) => parse_u64(bytes@, pos as int) == Some((v, p as int)),
            None => parse_u64(bytes@, pos as int) is None,
        },
{
    if pos <= bytes.len() && bytes.len() - pos >= 8 {
        let s = slice_subrange(bytes.as_slice(), pos, pos + 8);
        Some((u64_from_le_bytes(s), pos + 8))
    } else {
        None
    }
}

fn read_u32(bytes: &Vec<u8>, pos: usize) -> (r: Option<(u32, usize)>)
    ensures
        match r {
            Some((v, p)) => parse_u32(bytes@, pos as int) == Some((v, p as int)),
            None => parse_u32(bytes@, pos as int) is None,
        },
{
    if pos <= bytes.len() && bytes.len() - pos >= 4 {
        let s = slice_subrange(bytes.as_slice(), pos, pos + 4);
        Some((u32_from_le_bytes(s), pos + 4))
    } else {
        None
    }
}

fn read_usize(bytes: &Vec<u8>, pos: usize) -> (r: Option<(usize, usize)>)
    ensures
        match r {
            Some((v, p)) => parse_usize(bytes@, pos as int) == Some((v, p as int)),
            None => parse_usize(bytes@, pos as int) is None,
        },
{
    match read_u64(bytes, pos) {
        Some((v, p)) => if v <= usize::MAX as u64 {
            Some((v as usize, p))
        } else {
            None
        },
        None => None,
    }
}

fn read_char(bytes: &Vec<u8>, pos: usize) -> (r: Option<(char, usize)>)
    ensures
        match r {
            Some((c, p)) => parse_char(bytes@, pos as int) == Some((c, p as int)),
            None => parse_char(bytes@, pos as int) is None,
        },
{
    match read_u32(bytes, pos) {
        Some((v, p)) => match char_from_u32(v) {
            Some(c) => Some((c, p)),
            None => None,
        },
        None => None,
    }
}

proof fn lemma_parse_chars_none(b: Seq<u8>, pos: int, m: nat, count: nat)
    requires
        m <= count,
        parse_chars(b, pos, m) is None,
    ensures
        parse_chars(b, pos, count) is None,
    decreases count,
{
    if count > m {
        lemma_parse_chars_none(b, pos, m, (count - 1) as nat);
    }
}

proof fn lemma_parse_elements_none(b: Seq<u8>, pos: int, m: nat, count: nat)
    requires
        m <= count,
        parse_elements(b, pos, m) is None,
    ensures
        parse_elements(b, pos, count) is None,
    decreases count,
{
    if count > m {
        lemma_parse_elements_none(b, pos, m, (count - 1) as nat);
    }
}

proof fn lemma_parse_rules_none(b: Seq<u8>, pos: int, m: nat, count: nat)
    requires
        m <= count,
        parse_rules(b, pos, m) is None,
    ensures
        parse_rules(b, pos, count) is None,
    decreases count,
{
    if count > m {
        lemma_parse_rules_none(b, pos, m, (count - 1) as nat);
    }
}

fn read_name(bytes: &Vec<u8>, pos: usize, count: usize) -> (r: Option<(String, usize)>)
    ensures
        match r {
            Some((s, p)) => parse_chars(bytes@, pos as int, count as nat) == Some((s@, p as int)),
            None => parse_chars(bytes@, pos as int, count as nat) is None,
        },
{
    let mut s = String::new();
    let mut cur = pos;
    let mut k: usize = 0;
    while k < count
        invariant
            k <= count,
            parse_chars(bytes@, pos as int, k as nat) == Some((s@, cur as int)),
        decreases count - k,
    {
        match read_char(bytes, cur) {
            Some((c, p)) => {
                push_char(&mut s, c);
                cur = p;
            },
            None => {
                proof {
                    assert(parse_chars(bytes@, pos as int, (k + 1) as nat) is None);
                    lemma_parse_chars_none(bytes@, pos as int, (k + 1) as nat, count as nat);
                }
                return None;
            },
        }
        k = k + 1;
    }
    Some((s, cur))
}

fn read_element(bytes: &Vec<u8>, pos: usize) -> (r: Option<(Element, usize)>)
    ensures
        match r {
            Some((e, p)) => parse_element(bytes@, pos as int) == Some((e@, p as int)),
            None => parse_element(bytes@, pos as int) is None,
        },
{
    match read_byte(bytes, pos) {
        Some((cr, p1)) => match read_byte(bytes, p1) {
            Some((cg, p2)) => match read_byte(bytes, p2) {
                Some((cb, p3)) => match read_byte(bytes, p3) {
                    Some((ca, p4)) => match read_usize(bytes, p4) {
                        Some((n, p5)) => match read_name(bytes, p5, n) {
                            Some((name, p6)) => Some(
                                (Element { color: Rgba { r: cr, g: cg, b: cb, a: ca }, name }, p6),
                            ),
                            None => None,
                        },
                        None => None,
                    },
                    None => None,
                },
                None => None,
            },
            None => None,
        },
        None => None,
    }
}

fn read_elements(bytes: &Vec<u8>, pos: usize, count: usize) -> (r: Option<(Vec<Element>, usize)>)
    ensures
        match r {
            Some((v, p)) => parse_elements(bytes@, pos as int, count as nat) == Some(
                (palette_view(v@), p as int),
            ),
            None => parse_elements(bytes@, pos as int, count as nat) is None,
        },
{
    let mut acc: Vec<Element> = Vec::new();
    let mut cur = pos;
    let mut k: usize = 0;
    proof {
        assert(palette_view(acc@) =~= Seq::<ElementV>::empty());
    }
    while k < count
        invariant
            k <= count,
            parse_elements(bytes@, pos as int, k as nat) == Some((palette_view(acc@), cur as int)),
        decreases count - k,
    {
        let ghost apre = acc@;
        match read_element(bytes, cur) {
            Some((e, p)) => {
                acc.push(e);
                cur = p;
                proof {
                    assert(palette_view(acc@) =~= palette_view(apre).push(acc@.last()@));
                }
            },
            None => {
                proof {
                    assert(parse_elements(bytes@, pos as int, (k + 1) as nat) is None);
                    lemma_parse_elements_none(bytes@, pos as int, (k + 1) as nat, count as nat);
                }
                return None;
            },
        }
        k = k + 1;
    }
    Some((acc, cur))
}

fn read_block(bytes: &Vec<u8>, pos: usize) -> (r: Option<(Block, usize)>)
    ensures
        match r {
            Some((blk, p)) => parse_block(bytes@, pos as int) == Some((blk, p as int)),
            None => parse_block(bytes@, pos as int) is None,
        },
{
    match read_usize(bytes, pos) {
        Some((a, p1)) => match read_usize(bytes, p1) {
            Some((bb, p2)) => match read_usize(bytes, p2) {
                Some((c, p3)) => match read_usize(bytes, p3) {
                    Some((d, p4)) => Some((Block { a, b: bb, c, d }, p4)),
                    None => None,
                },
                None => None,
            },
            None => None,
        },
        None => None,
    }
}

fn read_rule(bytes: &Vec<u8>, pos: usize) -> (r: Option<(Rule, usize)>)
    ensures
        match r {
            Some((rule, p)) => parse_rule(bytes@, pos as int) == Some((rule, p as int)),
            None => parse_rule(bytes@, pos as int) is None,
        },
{
    match read_block(bytes, pos) {
        Some((input, p1)) => match read_block(bytes, p1) {
            Some((output, p2)) => Some((Rule { input, output }, p2)),
            None => None,
        },
        None => None,
    }
}

fn read_rules(bytes: &Vec<u8>, pos: usize, count: usize) -> (r: Option<(Vec<Rule>, usize)>)
    ensures
        match r {
            Some((v, p)) => parse_rules(bytes@, pos as int, count as nat) == Some(
                (v@, p as int),
            ),
            None => parse_rules(bytes@, pos as int, count as nat) is None,
        },
{
    let mut acc: Vec<Rule> = Vec::new();
    let mut cur = pos;
    let mut k: usize = 0;
    proof {
        assert(acc@ =~= Seq::<Rule>::empty());
    }
    while k < count
        invariant
            k <= count,
            parse_rules(bytes@, pos as int, k as nat) == Some((acc@, cur as int)),
        decreases count - k,
    {
        match read_rule(bytes, cur) {
            Some((rule, p)) => {
                acc.push(rule);
                cur = p;
            },
            None => {
                proof {
                    assert(parse_rules(bytes@, pos as int, (k + 1) as nat) is None);
                    lemma_parse_rules_none(bytes@, pos as int, (k + 1) as nat, count as nat);
                }
                return None;
            },
        }
        k = k + 1;
    }
    Some((acc, cur))
}

/// Read a `Sim` back from a byte document. A document that cannot be
/// parsed, or whose table has duplicate keys or stale indices, falls
/// back to the built-in starting state.
pub fn deserialize(bytes: &Vec<u8>) -> (sim: Sim)
    ensures
        sim.wf(),
        match parse_sim(bytes@) {
            Some(v) => sim@ == (if unique_keys(v.rules) && table_in_range(
                v.rules,
                v.palette.len(),
            ) {
                v
            } else {
                starting_v()
            }),
            None => sim@ == starting_v(),
        },
{
    let (flags, p0) = match read_byte(bytes, 0) {
        Some((f, p)) => (f, p),
        None => {
            return Sim::starting();
        },
    };
    let (elements, p1) = if flags & 1 != 0 {
        match read_usize(bytes, p0) {
            Some((cnt, p)) => match read_elements(bytes, p, cnt) {
                Some((els, pp)) => (els, pp),
                None => {
                    return Sim::starting();
                },
            },
            None => {
                return Sim::starting();
            },
        }
    } else {
        (SimIntrinsics::default().elements, p0)
    };
    let (rules, p2) = if flags & 2 != 0 {
        match read_usize(bytes, p1) {
            Some((cnt, p)) => match read_rules(bytes, p, cnt) {
                Some((rls, pp)) => (rls, pp),
                None => {
                    return Sim::starting();
                },
            },
            None => {
                return Sim::starting();
            },
        }
    } else {
        (Vec::new(), p1)
    };
    let horizontal = if flags & 4 != 0 {
        match read_byte(bytes, p2) {
            Some((x, _)) => if x == 1 {
                true
            } else if x == 0 {
                false
            } else {
                return Sim::starting();
            },
            None => {
                return Sim::starting();
            },
        }
    } else {
        true
    };
    match Sim::assemble(SimIntrinsics { elements, symmetry: Symmetry { horizontal } }, rules) {
        Some(s) => s,
        None => Sim::starting(),
    }
}

} // verus!
