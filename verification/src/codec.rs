use vstd::prelude::*;

use crate::orientation::Orientation;
use crate::sprite_config::coord_lt;
use crate::sprite_config::sorted_rule_keys;
use crate::sprite_config::GridCoordinate;
use crate::sprite_config::TilemapSpriteConfig;
use crate::tile_requirements::TileRequirements;

verus! {

// The persisted form of a rule table is one JSON document, written in a
// single canonical shape:
//
//   {"orientations":{"x:y":{"dirs":[...8 tri-states...]},...},
//    "grid_width":W,"grid_height":H,"tile_width":TW,"tile_height":TH}
//
// Keys are the sheet coordinates, encoded "x:y", in strictly ascending
// order; a tri-state is `true`, `false` or `null`. The functions below state
// the exact bytes, and the reader inverts the writer.
/// The decimal digits of `n`, most significant first.
pub open spec fn dec(n: nat) -> Seq<u8>
    decreases n,
{
    if n < 10 {
        seq![(48 + n) as u8]
    } else {
        dec(n / 10).push((48 + n % 10) as u8)
    }
}

pub open spec fn is_digit(b: u8) -> bool {
    48 <= b <= 57
}

/// The value of a digit string, read most significant first.
pub open spec fn digits_val(s: Seq<u8>) -> nat
    decreases s.len(),
{
    if s.len() == 0 {
        0
    } else {
        (digits_val(s.drop_last()) * 10 + (s.last() - 48)) as nat
    }
}

pub open spec fn ser_tri(t: Option<bool>) -> Seq<u8> {
    match t {
        Some(true) => seq![116u8, 114u8, 117u8, 101u8],
        Some(false) => seq![102u8, 97u8, 108u8, 115u8, 101u8],
        None => seq![110u8, 117u8, 108u8, 108u8],
    }
}

/// `{"dirs":[`
pub open spec fn lit_dirs_open() -> Seq<u8> {
    seq![123u8, 34u8, 100u8, 105u8, 114u8, 115u8, 34u8, 58u8, 91u8]
}

/// `]}`
pub open spec fn lit_dirs_close() -> Seq<u8> {
    seq![93u8, 125u8]
}

/// `{"orientations":{`
pub open spec fn lit_header() -> Seq<u8> {
    seq![
        123u8,
        34u8,
        111u8,
        114u8,
        105u8,
        101u8,
        110u8,
        116u8,
        97u8,
        116u8,
        105u8,
        111u8,
        110u8,
        115u8,
        34u8,
        58u8,
        123u8,
    ]
}

/// `},"grid_width":`
pub open spec fn lit_grid_width() -> Seq<u8> {
    seq![
        125u8,
        44u8,
        34u8,
        103u8,
        114u8,
        105u8,
        100u8,
        95u8,
        119u8,
        105u8,
        100u8,
        116u8,
        104u8,
        34u8,
        58u8,
    ]
}

/// `,"grid_height":`
pub open spec fn lit_grid_height() -> Seq<u8> {
    seq![
        44u8,
        34u8,
        103u8,
        114u8,
        105u8,
        100u8,
        95u8,
        104u8,
        101u8,
        105u8,
        103u8,
        104u8,
        116u8,
        34u8,
        58u8,
    ]
}

/// `,"tile_width":`
pub open spec fn lit_tile_width() -> Seq<u8> {
    seq![44u8, 34u8, 116u8, 105u8, 108u8, 101u8, 95u8, 119u8, 105u8, 100u8, 116u8, 104u8, 34u8, 58u8]
}

/// `,"tile_height":`
pub open spec fn lit_tile_height() -> Seq<u8> {
    seq![
        44u8,
        34u8,
        116u8,
        105u8,
        108u8,
        101u8,
        95u8,
        104u8,
        101u8,
        105u8,
        103u8,
        104u8,
        116u8,
        34u8,
        58u8,
    ]
}

/// The serialized tri-states from slot `i` on, comma-separated.
pub open spec fn ser_tris_from(dirs: Seq<Option<bool>>, i: int) -> Seq<u8>
    decreases 8 - i,
{
    if i < 0 || i >= 8 {
        Seq::empty()
    } else {
        ser_tri(dirs[i]) + (if i + 1 < 8 {
            seq![44u8] + ser_tris_from(dirs, i + 1)
        } else {
            Seq::empty()
        })
    }
}

/// The serialized tri-states before slot `i`, comma-separated, with a
/// trailing comma exactly when slots follow.
pub open spec fn ser_tris_prefix(dirs: Seq<Option<bool>>, i: int) -> Seq<u8>
    decreases i,
{
    if i <= 0 {
        Seq::empty()
    } else {
        ser_tris_prefix(dirs, i - 1) + ser_tri(dirs[i - 1]) + (if i < 8 {
            seq![44u8]
        } else {
            Seq::empty()
        })
    }
}

/// The whole-array prefix agrees with the suffix decomposition.
pub proof fn lemma_tris_split(dirs: Seq<Option<bool>>, i: int)
    requires
        0 <= i <= 8,
    ensures
        ser_tris_prefix(dirs, i) + ser_tris_from(dirs, i) == ser_tris_from(dirs, 0),
    decreases i,
{
    if i == 0 {
        assert(ser_tris_prefix(dirs, 0) + ser_tris_from(dirs, 0) =~= ser_tris_from(dirs, 0));
    } else {
        lemma_tris_split(dirs, i - 1);
        if i < 8 {
            assert(ser_tris_from(dirs, i - 1) == ser_tri(dirs[i - 1]) + (seq![44u8]
                + ser_tris_from(dirs, i)));
            assert(ser_tris_prefix(dirs, i) + ser_tris_from(dirs, i) =~= ser_tris_prefix(
                dirs,
                i - 1,
            ) + ser_tris_from(dirs, i - 1));
        } else {
            assert(ser_tris_from(dirs, i - 1) == ser_tri(dirs[i - 1]));
            assert(ser_tris_from(dirs, i) =~= Seq::<u8>::empty());
            assert(ser_tris_prefix(dirs, i) + ser_tris_from(dirs, i) =~= ser_tris_prefix(
                dirs,
                i - 1,
            ) + ser_tris_from(dirs, i - 1));
        }
    }
}

/// One tri-state array: `{"dirs":[a,b,c,d,e,f,g,h]}`.
pub open spec fn ser_req(r: TileRequirements) -> Seq<u8> {
    lit_dirs_open() + ser_tris_from(r.dirs@, 0) + lit_dirs_close()
}

/// One rule entry: `"x:y":` followed by the tri-state array.
pub open spec fn ser_entry(e: (GridCoordinate, TileRequirements)) -> Seq<u8> {
    seq![34u8] + dec(e.0.x as nat) + seq![58u8] + dec(e.0.y as nat) + seq![34u8, 58u8] + ser_req(
        e.1,
    )
}

/// The serialized entries from index `i` on, comma-separated.
pub open spec fn ser_rules_from(rules: Seq<(GridCoordinate, TileRequirements)>, i: int) -> Seq<u8>
    decreases rules.len() - i,
{
    if i < 0 || i >= rules.len() {
        Seq::empty()
    } else {
        ser_entry(rules[i]) + (if i + 1 < rules.len() {
            seq![44u8] + ser_rules_from(rules, i + 1)
        } else {
            Seq::empty()
        })
    }
}

/// The serialized entries before index `i`, comma-separated, with a trailing
/// comma exactly when entries follow.
pub open spec fn ser_rules_prefix(rules: Seq<(GridCoordinate, TileRequirements)>, i: int) -> Seq<
    u8,
>
    decreases i,
{
    if i <= 0 {
        Seq::empty()
    } else {
        ser_rules_prefix(rules, i - 1) + ser_entry(rules[i - 1]) + (if i < rules.len() {
            seq![44u8]
        } else {
            Seq::empty()
        })
    }
}

/// The whole-table prefix agrees with the suffix decomposition.
pub proof fn lemma_rules_split(rules: Seq<(GridCoordinate, TileRequirements)>, i: int)
    requires
        0 <= i <= rules.len(),
    ensures
        ser_rules_prefix(rules, i) + ser_rules_from(rules, i) == ser_rules_from(rules, 0),
    decreases i,
{
    if i == 0 {
        assert(ser_rules_prefix(rules, 0) + ser_rules_from(rules, 0) =~= ser_rules_from(rules, 0));
    } else {
        lemma_rules_split(rules, i - 1);
        if i < rules.len() {
            assert(ser_rules_from(rules, i - 1) == ser_entry(rules[i - 1]) + (seq![44u8]
                + ser_rules_from(rules, i)));
            assert(ser_rules_prefix(rules, i) + ser_rules_from(rules, i) =~= ser_rules_prefix(
                rules,
                i - 1,
            ) + ser_rules_from(rules, i - 1));
        } else {
            assert(ser_rules_from(rules, i - 1) == ser_entry(rules[i - 1]));
            assert(ser_rules_from(rules, i) =~= Seq::<u8>::empty());
            assert(ser_rules_prefix(rules, i) + ser_rules_from(rules, i) =~= ser_rules_prefix(
                rules,
                i - 1,
            ) + ser_rules_from(rules, i - 1));
        }
    }
}

/// The canonical serialized form of a whole configuration.
pub open spec fn spec_ser(c: TilemapSpriteConfig) -> Seq<u8> {
    lit_header() + ser_rules_from(c.rules(), 0) + lit_grid_width() + dec(c.grid_width as nat)
        + lit_grid_height() + dec(c.grid_height as nat) + lit_tile_width() + dec(
        c.tile_width as nat,
    ) + lit_tile_height() + dec(c.tile_height as nat) + seq![125u8]
}

/// Appends every byte of `src`.
fn push_all(dst: &mut Vec<u8>, src: &Vec<u8>)
    ensures
        final(dst)@ == old(dst)@ + src@,
{
    let ghost base = dst@;
    let n = src.len();
    let mut i: usize = 0;
    while i < n
        invariant
            i <= n,
            n == src@.len(),
            dst@ == base + src@.take(i as int),
        decreases n - i,
    {
        dst.push(src[i]);
        proof {
            assert(base + src@.take(i as int) + seq![src@[i as int]] =~= base + src@.take(
                i as int + 1,
            ));
        }
        i += 1;
    }
    proof {
        assert(base + src@.take(n as int) =~= base + src@);
    }
}

fn lit_header_vec() -> (r: Vec<u8>)
    ensures
        r@ == lit_header(),
{
    let v = vec![123u8, 34, 111, 114, 105, 101, 110, 116, 97, 116, 105, 111, 110, 115, 34, 58, 123];
    proof {
        assert(v@ =~= lit_header());
    }
    v
}

fn lit_dirs_open_vec() -> (r: Vec<u8>)
    ensures
        r@ == lit_dirs_open(),
{
    let v = vec![123u8, 34, 100, 105, 114, 115, 34, 58, 91];
    proof {
        assert(v@ =~= lit_dirs_open());
    }
    v
}

fn lit_dirs_close_vec() -> (r: Vec<u8>)
    ensures
        r@ == lit_dirs_close(),
{
    let v = vec![93u8, 125];
    proof {
        assert(v@ =~= lit_dirs_close());
    }
    v
}

fn lit_grid_width_vec() -> (r: Vec<u8>)
    ensures
        r@ == lit_grid_width(),
{
    let v = vec![125u8, 44, 34, 103, 114, 105, 100, 95, 119, 105, 100, 116, 104, 34, 58];
    proof {
        assert(v@ =~= lit_grid_width());
    }
    v
}

fn lit_grid_height_vec() -> (r: Vec<u8>)
    ensures
        r@ == lit_grid_height(),
{
    let v = vec![44u8, 34, 103, 114, 105, 100, 95, 104, 101, 105, 103, 104, 116, 34, 58];
    proof {
        assert(v@ =~= lit_grid_height());
    }
    v
}

fn lit_tile_width_vec() -> (r: Vec<u8>)
    ensures
        r@ == lit_tile_width(),
{
    let v = vec![44u8, 34, 116, 105, 108, 101, 95, 119, 105, 100, 116, 104, 34, 58];
    proof {
        assert(v@ =~= lit_tile_width());
    }
    v
}

fn lit_tile_height_vec() -> (r: Vec<u8>)
    ensures
        r@ == lit_tile_height(),
{
    let v = vec![44u8, 34, 116, 105, 108, 101, 95, 104, 101, 105, 103, 104, 116, 34, 58];
    proof {
        assert(v@ =~= lit_tile_height());
    }
    v
}

/// Appends the decimal digits of `n`.
fn push_usize(dst: &mut Vec<u8>, n: usize)
    ensures
        final(dst)@ == old(dst)@ + dec(n as nat),
    decreases n,
{
    if n < 10 {
        dst.push(48 + (n as u8));
        proof {
            assert(old(dst)@.push((48 + (n as u8)) as u8) =~= old(dst)@ + dec(n as nat));
        }
    } else {
        push_usize(dst, n / 10);
        dst.push(48 + ((n % 10) as u8));
        proof {
            assert(old(dst)@ + dec((n / 10) as nat) + seq![(48 + (n % 10) as nat) as u8] =~= old(
                dst,
            )@ + dec(n as nat));
        }
    }
}

/// Appends one tri-state value.
fn push_tri(dst: &mut Vec<u8>, t: Option<bool>)
    ensures
        final(dst)@ == old(dst)@ + ser_tri(t),
{
    match t {
        Some(true) => {
            dst.push(116);
            dst.push(114);
            dst.push(117);
            dst.push(101);
        },
        Some(false) => {
            dst.push(102);
            dst.push(97);
            dst.push(108);
            dst.push(115);
            dst.push(101);
        },
        None => {
            dst.push(110);
            dst.push(117);
            dst.push(108);
            dst.push(108);
        },
    }
    proof {
        assert(dst@ =~= old(dst)@ + ser_tri(t));
    }
}

/// Appends one tri-state array.
fn push_req(dst: &mut Vec<u8>, r: &TileRequirements)
    ensures
        final(dst)@ == old(dst)@ + ser_req(*r),
{
    let ghost base = dst@;
    let open = lit_dirs_open_vec();
    push_all(dst, &open);
    let mut i: usize = 0;
    while i < 8
        invariant
            i <= 8,
            dst@ == base + lit_dirs_open() + ser_tris_prefix(r.dirs@, i as int),
        decreases 8 - i,
    {
        push_tri(dst, r.dirs[i]);
        if i + 1 < 8 {
            dst.push(44);
        }
        proof {
            assert(dst@ =~= base + lit_dirs_open() + ser_tris_prefix(r.dirs@, i as int + 1));
        }
        i += 1;
    }
    proof {
        lemma_tris_split(r.dirs@, 8);
        assert(ser_tris_from(r.dirs@, 8) =~= Seq::<u8>::empty());
        assert(ser_tris_prefix(r.dirs@, 8) =~= ser_tris_from(r.dirs@, 0));
    }
    let close = lit_dirs_close_vec();
    push_all(dst, &close);
    proof {
        assert(dst@ =~= base + ser_req(*r));
    }
}

/// Appends one rule entry.
fn push_entry(dst: &mut Vec<u8>, c: GridCoordinate, r: &TileRequirements)
    ensures
        final(dst)@ == old(dst)@ + ser_entry((c, *r)),
{
    let ghost base = dst@;
    dst.push(34);
    push_usize(dst, c.x);
    dst.push(58);
    push_usize(dst, c.y);
    dst.push(34);
    dst.push(58);
    push_req(dst, r);
    proof {
        assert(dst@ =~= base + ser_entry((c, *r)));
    }
}

/// Every byte of `dec(n)` is a digit, and there is at least one.
proof fn lemma_dec_digits(n: nat)
    ensures
        dec(n).len() >= 1,
        forall|i: int| 0 <= i < dec(n).len() ==> is_digit(#[trigger] dec(n)[i]),
    decreases n,
{
    if n >= 10 {
        lemma_dec_digits(n / 10);
        assert forall|i: int| 0 <= i < dec(n).len() implies is_digit(#[trigger] dec(n)[i]) by {
            if i < dec(n / 10).len() {
                assert(dec(n)[i] == dec(n / 10)[i]);
            } else {
                assert(dec(n)[i] == (48 + n % 10) as u8);
            }
        }
    }
}

/// Reading the digits of `n` gives back `n`.
proof fn lemma_val_dec(n: nat)
    ensures
        digits_val(dec(n)) == n,
    decreases n,
{
    if n < 10 {
        assert(dec(n).drop_last() =~= Seq::<u8>::empty());
        assert(digits_val(Seq::<u8>::empty()) == 0);
        assert(dec(n).last() == (48 + n) as u8);
        assert(((48 + n) as u8) - 48 == n);
    } else {
        lemma_val_dec(n / 10);
        assert(dec(n).drop_last() =~= dec(n / 10));
        vstd::arithmetic::div_mod::lemma_fundamental_div_mod(n as int, 10);
    }
}

/// No prefix of the digits of `n` reads above `n`.
proof fn lemma_dec_prefix(n: nat, i: int)
    requires
        0 <= i <= dec(n).len(),
    ensures
        digits_val(dec(n).take(i)) <= n,
    decreases n,
{
    if i == dec(n).len() {
        assert(dec(n).take(i) =~= dec(n));
        lemma_val_dec(n);
    } else if i == 0 {
        assert(dec(n).take(0) =~= Seq::<u8>::empty());
    } else {
        assert(n >= 10);
        assert(dec(n).take(i) =~= dec(n / 10).take(i));
        lemma_dec_prefix(n / 10, i);
    }
}

/// The digits of a positive value never start with a zero.
proof fn lemma_dec_leading(n: nat)
    ensures
        n >= 1 ==> dec(n)[0] != 48,
    decreases n,
{
    if n >= 10 {
        lemma_dec_leading(n / 10);
        assert(dec(n)[0] == dec(n / 10)[0]);
    }
}

/// Writing back the value of a canonical digit string — nonempty, digits
/// only, no leading zero — gives the same string.
proof fn lemma_dec_of_val(d: Seq<u8>)
    requires
        d.len() >= 1,
        forall|i: int| 0 <= i < d.len() ==> is_digit(#[trigger] d[i]),
        d.len() > 1 ==> d[0] != 48,
    ensures
        dec(digits_val(d)) == d,
    decreases d.len(),
{
    if d.len() == 1 {
        assert(d.drop_last() =~= Seq::<u8>::empty());
        assert(digits_val(Seq::<u8>::empty()) == 0);
        assert(d.last() == d[0]);
        assert(digits_val(d) == d[0] - 48);
        assert(dec(digits_val(d)) =~= d);
    } else {
        let bl = d.drop_last();
        assert(bl.len() >= 1);
        assert forall|i: int| 0 <= i < bl.len() implies is_digit(#[trigger] bl[i]) by {
            assert(bl[i] == d[i]);
        }
        assert(bl[0] == d[0]);
        lemma_dec_of_val(bl);
        if digits_val(bl) == 0 {
            assert(bl =~= dec(0));
            assert(bl[0] == 48);
            assert(false);
        }
        let v = digits_val(d);
        assert(v == digits_val(bl) * 10 + (d.last() - 48));
        assert(v >= 10) by (nonlinear_arith)
            requires
                v == digits_val(bl) * 10 + (d.last() - 48),
                digits_val(bl) >= 1,
                d.last() - 48 >= 0,
        ;
        vstd::arithmetic::div_mod::lemma_fundamental_div_mod_converse(
            v as int,
            10,
            digits_val(bl) as int,
            (d.last() - 48) as int,
        );
        assert(dec(v) == dec(v / 10).push((48 + v % 10) as u8));
        assert(dec(v) =~= d);
    }
}

/// A range that equals `a + b` splits into a range equal to `a` and one
/// equal to `b`.
proof fn lemma_peel(s: Seq<u8>, pos: int, a: Seq<u8>, b: Seq<u8>)
    requires
        0 <= pos,
        pos + a.len() + b.len() <= s.len(),
        s.subrange(pos, pos + a.len() + b.len()) == a + b,
    ensures
        s.subrange(pos, pos + a.len()) == a,
        s.subrange(pos + a.len(), pos + a.len() + b.len()) == b,
{
    assert forall|k: int| 0 <= k < a.len() implies s.subrange(pos, pos + a.len())[k] == a[k] by {
        assert(s.subrange(pos, pos + a.len() + b.len())[k] == (a + b)[k]);
    }
    assert(s.subrange(pos, pos + a.len()) =~= a);
    assert forall|k: int|
        0 <= k < b.len() implies s.subrange(pos + a.len(), pos + a.len() + b.len())[k] == b[k] by {
        assert(s.subrange(pos, pos + a.len() + b.len())[a.len() + k] == (a + b)[a.len() + k]);
        assert(s.subrange(pos, pos + a.len() + b.len())[a.len() + k] == s[pos + a.len() + k]);
        assert(s.subrange(pos + a.len(), pos + a.len() + b.len())[k] == s[pos + a.len() + k]);
        assert((a + b)[a.len() + k] == b[k]);
    }
    assert(s.subrange(pos + a.len(), pos + a.len() + b.len()) =~= b);
}

/// Adjacent ranges equal to `a` and `b` form one range equal to `a + b`.
proof fn lemma_join(s: Seq<u8>, pos: int, a: Seq<u8>, b: Seq<u8>)
    requires
        bytes_at(s, pos, a),
        bytes_at(s, pos + a.len(), b),
    ensures
        bytes_at(s, pos, a + b),
{
    assert forall|k: int|
        0 <= k < a.len() + b.len() implies s.subrange(pos, pos + a.len() + b.len())[k] == (a + b)[k]
        by {
        assert(s.subrange(pos, pos + a.len() + b.len())[k] == s[pos + k]);
        if k < a.len() {
            assert(s.subrange(pos, pos + a.len())[k] == a[k]);
            assert(s.subrange(pos, pos + a.len())[k] == s[pos + k]);
        } else {
            assert(s.subrange(pos + a.len(), pos + a.len() + b.len())[k - a.len()] == b[k
                - a.len()]);
            assert(s.subrange(pos + a.len(), pos + a.len() + b.len())[k - a.len()] == s[pos + k]);
        }
    }
    assert(s.subrange(pos, pos + a.len() + b.len()) =~= a + b);
}

/// The serialized tri-state prefix reads only the slots below `i`.
proof fn lemma_tris_prefix_congruence(d1: Seq<Option<bool>>, d2: Seq<Option<bool>>, i: int)
    requires
        0 <= i <= 8,
        forall|j: int| 0 <= j < i ==> d1[j] == d2[j],
    ensures
        ser_tris_prefix(d1, i) == ser_tris_prefix(d2, i),
    decreases i,
{
    if i > 0 {
        lemma_tris_prefix_congruence(d1, d2, i - 1);
    }
}

/// The serialized entries before `i`, each followed by its separating comma.
spec fn ser_rules_allc(rules: Seq<(GridCoordinate, TileRequirements)>, i: int) -> Seq<u8>
    decreases i,
{
    if i <= 0 {
        Seq::empty()
    } else {
        ser_rules_allc(rules, i - 1) + ser_entry(rules[i - 1]) + seq![44u8]
    }
}

/// The comma-terminated prefix reads only the entries below `i`.
proof fn lemma_rules_allc_congruence(
    r1: Seq<(GridCoordinate, TileRequirements)>,
    r2: Seq<(GridCoordinate, TileRequirements)>,
    i: int,
)
    requires
        0 <= i <= r1.len(),
        i <= r2.len(),
        forall|j: int| 0 <= j < i ==> r1[j] == r2[j],
    ensures
        ser_rules_allc(r1, i) == ser_rules_allc(r2, i),
    decreases i,
{
    if i > 0 {
        lemma_rules_allc_congruence(r1, r2, i - 1);
    }
}

/// The comma-terminated prefix plus the suffix is the whole table.
proof fn lemma_rules_allc_split(rules: Seq<(GridCoordinate, TileRequirements)>, i: int)
    requires
        0 <= i < rules.len(),
    ensures
        ser_rules_allc(rules, i) + ser_rules_from(rules, i) == ser_rules_from(rules, 0),
    decreases i,
{
    if i == 0 {
        assert(ser_rules_allc(rules, 0) + ser_rules_from(rules, 0) =~= ser_rules_from(rules, 0));
    } else {
        lemma_rules_allc_split(rules, i - 1);
        assert(ser_rules_from(rules, i - 1) == ser_entry(rules[i - 1]) + (seq![44u8]
            + ser_rules_from(rules, i)));
        assert(ser_rules_allc(rules, i) + ser_rules_from(rules, i) =~= ser_rules_allc(rules, i - 1)
            + ser_rules_from(rules, i - 1));
    }
}

/// Advances past one expected byte.
fn eat_byte(s: &[u8], pos: usize, b: u8) -> (r: Option<usize>)
    ensures
        (r is Some) <==> (pos < s@.len() && s@[pos as int] == b),
        r matches Some(p) ==> p == pos + 1,
{
    if pos < s.len() && s[pos] == b {
        Some(pos + 1)
    } else {
        None
    }
}

/// Advances past an expected literal.
fn eat_lit(s: &[u8], pos: usize, lit: &Vec<u8>) -> (r: Option<usize>)
    ensures
        (r is Some) <==> (pos + lit@.len() <= s@.len() && s@.subrange(
            pos as int,
            pos + lit@.len(),
        ) == lit@),
        r matches Some(p) ==> p == pos + lit@.len(),
{
    let n = lit.len();
    let len = s.len();
    if len < n || pos > len - n {
        proof {
            if pos + lit@.len() <= s@.len() && s@.subrange(pos as int, pos + lit@.len()) == lit@ {
                assert(false);
            }
        }
        return None;
    }
    let mut j: usize = 0;
    while j < n
        invariant
            j <= n,
            n == lit@.len(),
            len == s@.len(),
            pos + n <= len,
            forall|k: int| 0 <= k < j ==> s@[pos + k] == lit@[k],
        decreases n - j,
    {
        if s[pos + j] != lit[j] {
            proof {
                if s@.subrange(pos as int, pos + lit@.len()) == lit@ {
                    assert(s@.subrange(pos as int, pos + lit@.len())[j as int] == lit@[j as int]);
                    assert(s@[pos + j] == lit@[j as int]);
                }
            }
            return None;
        }
        j += 1;
    }
    proof {
        assert(s@.subrange(pos as int, pos + lit@.len()) =~= lit@);
    }
    Some(pos + n)
}

/// Reads a decimal number. Whenever the input at `pos` holds the digits of
/// some value followed by a non-digit (or the end), exactly that value is
/// read.
#[verifier::rlimit(100)]
#[verifier::spinoff_prover]
fn parse_usize(s: &[u8], pos: usize) -> (r: Option<(usize, usize)>)
    ensures
        r matches Some(v) ==> pos < v.1 <= s@.len(),
        r matches Some(v) ==> bytes_at(s@, pos as int, dec(v.0 as nat)) && v.1 == pos + dec(
            v.0 as nat,
        ).len() && (v.1 == s@.len() || !is_digit(s@[v.1 as int])),
        forall|n: usize|
            (pos + #[trigger] dec(n as nat).len() <= s@.len() && s@.subrange(
                pos as int,
                pos + dec(n as nat).len(),
            ) == dec(n as nat) && (pos + dec(n as nat).len() == s@.len() || !is_digit(
                s@[pos + dec(n as nat).len()],
            ))) ==> (r matches Some(v) && v.0 == n && v.1 == pos + dec(n as nat).len()),
{
    let len = s.len();
    if pos >= len || !(48 <= s[pos] && s[pos] <= 57) {
        proof {
            assert forall|n: usize|
                !(pos + #[trigger] dec(n as nat).len() <= s@.len() && s@.subrange(
                    pos as int,
                    pos + dec(n as nat).len(),
                ) == dec(n as nat) && (pos + dec(n as nat).len() == s@.len() || !is_digit(
                    s@[pos + dec(n as nat).len()],
                ))) by {
                lemma_dec_digits(n as nat);
                if pos + dec(n as nat).len() <= s@.len() && s@.subrange(
                    pos as int,
                    pos + dec(n as nat).len(),
                ) == dec(n as nat) {
                    assert(s@.subrange(pos as int, pos + dec(n as nat).len())[0] == dec(
                        n as nat,
                    )[0]);
                    assert(is_digit(s@[pos as int]));
                }
            }
        }
        return None;
    }
    let mut acc: usize = (s[pos] - 48) as usize;
    let mut i: usize = pos + 1;
    proof {
        assert(s@.subrange(pos as int, pos as int + 1) =~= seq![s@[pos as int]]);
        assert(s@.subrange(pos as int, pos as int + 1).drop_last() =~= Seq::<u8>::empty());
        assert(digits_val(Seq::<u8>::empty()) == 0);
        assert(s@.subrange(pos as int, pos as int + 1).last() == s@[pos as int]);
        assert(digits_val(s@.subrange(pos as int, pos as int + 1)) == s@[pos as int] - 48);
    }
    while i < len && 48 <= s[i] && s[i] <= 57
        invariant
            pos < i <= len,
            len == s@.len(),
            forall|j: int| pos <= j < i ==> is_digit(#[trigger] s@[j]),
            acc == digits_val(s@.subrange(pos as int, i as int)),
        decreases len - i,
    {
        let d = (s[i] - 48) as usize;
        if acc > (usize::MAX - d) / 10 {
            proof {
                assert(acc * 10 + d > usize::MAX) by (nonlinear_arith)
                    requires
                        acc > (usize::MAX - d) / 10,
                        0 <= d <= 9,
                        usize::MAX - d == ((usize::MAX - d) / 10) * 10 + (usize::MAX - d) % 10,
                        0 <= (usize::MAX - d) % 10 < 10,
                ;
                assert forall|n: usize|
                    !(pos + #[trigger] dec(n as nat).len() <= s@.len() && s@.subrange(
                        pos as int,
                        pos + dec(n as nat).len(),
                    ) == dec(n as nat) && (pos + dec(n as nat).len() == s@.len() || !is_digit(
                        s@[pos + dec(n as nat).len()],
                    ))) by {
                    lemma_dec_digits(n as nat);
                    if pos + dec(n as nat).len() <= s@.len() && s@.subrange(
                        pos as int,
                        pos + dec(n as nat).len(),
                    ) == dec(n as nat) && (pos + dec(n as nat).len() == s@.len() || !is_digit(
                        s@[pos + dec(n as nat).len()],
                    )) {
                        let dl = dec(n as nat).len();
                        // the scan is still inside the digit region
                        if pos + dl <= i {
                            assert(is_digit(s@[pos + dl]) || pos + dl == s@.len());
                            assert(pos + dl < i ==> is_digit(s@[pos + dl]));
                            assert(pos + dl == i ==> is_digit(s@[i as int]));
                            assert(false);
                        }
                        assert(i + 1 <= pos + dl);
                        assert(s@.subrange(pos as int, i as int + 1) =~= dec(n as nat).take(
                            i + 1 - pos,
                        ));
                        lemma_dec_prefix(n as nat, i + 1 - pos);
                        assert(s@.subrange(pos as int, i as int + 1).drop_last() =~= s@.subrange(
                            pos as int,
                            i as int,
                        ));
                        assert(digits_val(s@.subrange(pos as int, i as int + 1)) == acc * 10 + d);
                        assert(acc * 10 + d <= n);
                    }
                }
            }
            return None;
        }
        acc = acc * 10 + d;
        proof {
            assert(s@.subrange(pos as int, i as int + 1).drop_last() =~= s@.subrange(
                pos as int,
                i as int,
            ));
            assert(s@.subrange(pos as int, i as int + 1).last() == s@[i as int]);
        }
        i += 1;
    }
    proof {
        assert forall|n: usize|
            (pos + #[trigger] dec(n as nat).len() <= s@.len() && s@.subrange(
                pos as int,
                pos + dec(n as nat).len(),
            ) == dec(n as nat) && (pos + dec(n as nat).len() == s@.len() || !is_digit(
                s@[pos + dec(n as nat).len()],
            ))) implies (acc == n && i == pos + dec(n as nat).len()) by {
            lemma_dec_digits(n as nat);
            let dl = dec(n as nat).len();
            if pos + dl < i {
                assert(is_digit(s@[pos + dl]) || pos + dl == s@.len());
                assert(false);
            }
            if i < pos + dl {
                assert(s@.subrange(pos as int, pos + dl)[i - pos] == dec(n as nat)[i - pos]);
                assert(is_digit(s@[i as int]));
                assert(i < len);
                assert(false);
            }
            assert(i == pos + dl);
            assert(s@.subrange(pos as int, i as int) =~= dec(n as nat));
            lemma_val_dec(n as nat);
        }
    }
    if s[pos] == 48 && i > pos + 1 {
        // a leading zero is not the canonical spelling of any value
        proof {
            assert forall|n: usize|
                !(pos + #[trigger] dec(n as nat).len() <= s@.len() && s@.subrange(
                    pos as int,
                    pos + dec(n as nat).len(),
                ) == dec(n as nat) && (pos + dec(n as nat).len() == s@.len() || !is_digit(
                    s@[pos + dec(n as nat).len()],
                ))) by {
                lemma_dec_digits(n as nat);
                lemma_dec_leading(n as nat);
                if pos + dec(n as nat).len() <= s@.len() && s@.subrange(
                    pos as int,
                    pos + dec(n as nat).len(),
                ) == dec(n as nat) && (pos + dec(n as nat).len() == s@.len() || !is_digit(
                    s@[pos + dec(n as nat).len()],
                )) {
                    assert(i == pos + dec(n as nat).len());
                    assert(s@.subrange(pos as int, pos + dec(n as nat).len())[0] == dec(
                        n as nat,
                    )[0]);
                    assert(dec(n as nat)[0] == 48);
                    assert(n == 0);
                    assert(dec(0).len() == 1);
                    assert(false);
                }
            }
        }
        return None;
    }
    proof {
        let d = s@.subrange(pos as int, i as int);
        assert(d.len() >= 1);
        assert(d.len() > 1 ==> d[0] != 48);
        assert forall|k: int| 0 <= k < d.len() implies is_digit(#[trigger] d[k]) by {
            assert(d[k] == s@[pos + k]);
        }
        lemma_dec_of_val(d);
        assert(dec(acc as nat) == d);
    }
    Some((acc, i))
}

/// Reads one tri-state token: `true`, `false` or `null`.
fn parse_tri(s: &[u8], pos: usize) -> (r: Option<(Option<bool>, usize)>)
    ensures
        r matches Some(v) ==> pos < v.1 <= s@.len(),
        r matches Some(v) ==> bytes_at(s@, pos as int, ser_tri(v.0)) && v.1 == pos + ser_tri(
            v.0,
        ).len(),
        forall|t: Option<bool>|
            (pos + #[trigger] ser_tri(t).len() <= s@.len() && s@.subrange(
                pos as int,
                pos + ser_tri(t).len(),
            ) == ser_tri(t)) ==> (r matches Some(v) && v.0 == t && v.1 == pos + ser_tri(t).len()),
{
    let null_lit = vec![110u8, 117, 108, 108];
    let true_lit = vec![116u8, 114, 117, 101];
    let false_lit = vec![102u8, 97, 108, 115, 101];
    proof {
        assert(null_lit@ =~= ser_tri(None));
        assert(true_lit@ =~= ser_tri(Some(true)));
        assert(false_lit@ =~= ser_tri(Some(false)));
    }
    if let Some(p) = eat_lit(s, pos, &null_lit) {
        proof {
            assert forall|t: Option<bool>|
                (pos + #[trigger] ser_tri(t).len() <= s@.len() && s@.subrange(
                    pos as int,
                    pos + ser_tri(t).len(),
                ) == ser_tri(t)) implies t == Option::<bool>::None by {
                if t != Option::<bool>::None {
                    assert(s@.subrange(pos as int, pos + ser_tri(t).len())[0] == ser_tri(t)[0]);
                    assert(s@.subrange(pos as int, pos + ser_tri(
                        Option::<bool>::None,
                    ).len())[0] == ser_tri(Option::<bool>::None)[0]);
                }
            }
        }
        return Some((None, p));
    }
    if let Some(p) = eat_lit(s, pos, &true_lit) {
        proof {
            assert forall|t: Option<bool>|
                (pos + #[trigger] ser_tri(t).len() <= s@.len() && s@.subrange(
                    pos as int,
                    pos + ser_tri(t).len(),
                ) == ser_tri(t)) implies t == Some(true) by {
                if t != Some(true) {
                    assert(s@.subrange(pos as int, pos + ser_tri(t).len())[0] == ser_tri(t)[0]);
                    assert(s@.subrange(pos as int, pos + ser_tri(Some(true)).len())[0] == ser_tri(
                        Some(true),
                    )[0]);
                }
            }
        }
        return Some((Some(true), p));
    }
    if let Some(p) = eat_lit(s, pos, &false_lit) {
        proof {
            assert forall|t: Option<bool>|
                (pos + #[trigger] ser_tri(t).len() <= s@.len() && s@.subrange(
                    pos as int,
                    pos + ser_tri(t).len(),
                ) == ser_tri(t)) implies t == Some(false) by {
                if t != Some(false) {
                    assert(s@.subrange(pos as int, pos + ser_tri(t).len())[0] == ser_tri(t)[0]);
                    assert(s@.subrange(pos as int, pos + ser_tri(Some(false)).len())[0] == ser_tri(
                        Some(false),
                    )[0]);
                }
            }
        }
        return Some((Some(false), p));
    }
    None
}

/// The bytes `w` sit in `s` starting at `pos`.
pub open spec fn bytes_at(s: Seq<u8>, pos: int, w: Seq<u8>) -> bool {
    0 <= pos && pos + w.len() <= s.len() && s.subrange(pos, pos + w.len()) == w
}

/// Reads one tri-state array `{"dirs":[...]}`.
#[verifier::rlimit(100)]
#[verifier::spinoff_prover]
fn parse_req(s: &[u8], pos: usize) -> (r: Option<(TileRequirements, usize)>)
    ensures
        r matches Some(v) ==> pos < v.1 <= s@.len(),
        r matches Some(v) ==> bytes_at(s@, pos as int, ser_req(v.0)) && v.1 == pos + ser_req(
            v.0,
        ).len(),
        forall|q: TileRequirements|
            bytes_at(s@, pos as int, #[trigger] ser_req(q)) ==> (r matches Some(v) && v.0.dirs@
                == q.dirs@ && v.1 == pos + ser_req(q).len()),
{
    let open_l = lit_dirs_open_vec();
    let close_l = lit_dirs_close_vec();
    let p0 = match eat_lit(s, pos, &open_l) {
        Some(p) => p,
        None => {
            proof {
                assert forall|q: TileRequirements|
                    !bytes_at(s@, pos as int, #[trigger] ser_req(q)) by {
                    if bytes_at(s@, pos as int, ser_req(q)) {
                        assert(ser_req(q) =~= lit_dirs_open() + (ser_tris_from(q.dirs@, 0)
                            + lit_dirs_close()));
                        lemma_peel(
                            s@,
                            pos as int,
                            lit_dirs_open(),
                            ser_tris_from(q.dirs@, 0) + lit_dirs_close(),
                        );
                    }
                }
            }
            return None;
        },
    };
    let mut arr: [Option<bool>; 8] = [None, None, None, None, None, None, None, None];
    proof {
        assert(bytes_at(s@, pos as int, lit_dirs_open()));
        assert(ser_tris_prefix(arr@, 0) =~= Seq::<u8>::empty());
        assert(s@.subrange(p0 as int, p0 as int) =~= ser_tris_prefix(arr@, 0));
        assert(bytes_at(s@, p0 as int, ser_tris_prefix(arr@, 0)));
    }
    let mut cur = p0;
    let mut i: usize = 0;
    while i < 8
        invariant
            i <= 8,
            pos < cur <= s@.len(),
            p0 == pos + lit_dirs_open().len(),
            bytes_at(s@, pos as int, lit_dirs_open()),
            bytes_at(s@, p0 as int, ser_tris_prefix(arr@, i as int)),
            cur == p0 + ser_tris_prefix(arr@, i as int).len(),
            forall|q: TileRequirements|
                bytes_at(s@, pos as int, #[trigger] ser_req(q)) ==> (cur == pos
                    + lit_dirs_open().len() + ser_tris_prefix(q.dirs@, i as int).len() && (forall|
                    j: int,
                |
                    0 <= j < i ==> arr@[j] == q.dirs@[j])),
        decreases 8 - i,
    {
        let ghost ii = i as int;
        proof {
            assert forall|q: TileRequirements|
                bytes_at(s@, pos as int, #[trigger] ser_req(q)) implies bytes_at(
                s@,
                cur as int,
                ser_tri(q.dirs@[ii]),
            ) && (ii < 7 ==> cur + ser_tri(q.dirs@[ii]).len() < s@.len() && s@[cur + ser_tri(
                q.dirs@[ii],
            ).len()] == 44) && (ii == 7 ==> bytes_at(
                s@,
                cur + ser_tri(q.dirs@[ii]).len(),
                lit_dirs_close(),
            )) by {
                lemma_tris_split(q.dirs@, ii);
                let head = lit_dirs_open() + ser_tris_prefix(q.dirs@, ii);
                let rest = if ii < 7 {
                    seq![44u8] + ser_tris_from(q.dirs@, ii + 1)
                } else {
                    Seq::<u8>::empty()
                };
                assert(ser_tris_from(q.dirs@, ii) == ser_tri(q.dirs@[ii]) + rest);
                assert(ser_req(q) =~= head + (ser_tri(q.dirs@[ii]) + (rest + lit_dirs_close())));
                lemma_peel(
                    s@,
                    pos as int,
                    head,
                    ser_tri(q.dirs@[ii]) + (rest + lit_dirs_close()),
                );
                lemma_peel(s@, cur as int, ser_tri(q.dirs@[ii]), rest + lit_dirs_close());
                let after = cur + ser_tri(q.dirs@[ii]).len();
                if ii < 7 {
                    assert(rest + lit_dirs_close() =~= seq![44u8] + (ser_tris_from(q.dirs@, ii + 1)
                        + lit_dirs_close()));
                    lemma_peel(
                        s@,
                        after,
                        seq![44u8],
                        ser_tris_from(q.dirs@, ii + 1) + lit_dirs_close(),
                    );
                    assert(s@.subrange(after, after + 1)[0] == s@[after]);
                } else {
                    assert(rest + lit_dirs_close() =~= lit_dirs_close());
                }
            }
        }
        let (tv, np) = match parse_tri(s, cur) {
            Some(v) => v,
            None => {
                proof {
                    assert forall|q: TileRequirements|
                        !bytes_at(s@, pos as int, #[trigger] ser_req(q)) by {
                        if bytes_at(s@, pos as int, ser_req(q)) {
                            assert(bytes_at(s@, cur as int, ser_tri(q.dirs@[ii])));
                        }
                    }
                }
                return None;
            },
        };
        let ghost pre_arr = arr@;
        arr[i] = tv;
        let next = if i + 1 < 8 {
            match eat_byte(s, np, 44) {
                Some(p) => p,
                None => {
                    proof {
                        assert forall|q: TileRequirements|
                            !bytes_at(s@, pos as int, #[trigger] ser_req(q)) by {
                            if bytes_at(s@, pos as int, ser_req(q)) {
                                assert(np == cur + ser_tri(q.dirs@[ii]).len());
                                assert(s@[np as int] == 44);
                            }
                        }
                    }
                    return None;
                },
            }
        } else {
            np
        };
        proof {
            lemma_tris_prefix_congruence(pre_arr, arr@, ii);
            assert(bytes_at(s@, p0 as int, ser_tris_prefix(arr@, ii)));
            assert(arr@[ii] == tv);
            lemma_join(s@, p0 as int, ser_tris_prefix(arr@, ii), ser_tri(tv));
            if ii + 1 < 8 {
                assert(s@.subrange(np as int, np as int + 1) =~= seq![44u8]);
                assert(bytes_at(s@, np as int, seq![44u8]));
                lemma_join(
                    s@,
                    p0 as int,
                    ser_tris_prefix(arr@, ii) + ser_tri(tv),
                    seq![44u8],
                );
                assert(ser_tris_prefix(arr@, ii + 1) == ser_tris_prefix(arr@, ii) + ser_tri(tv)
                    + seq![44u8]);
            } else {
                assert(ser_tris_prefix(arr@, ii + 1) =~= ser_tris_prefix(arr@, ii) + ser_tri(tv));
            }
            assert(bytes_at(s@, p0 as int, ser_tris_prefix(arr@, ii + 1)));
            assert forall|q: TileRequirements|
                bytes_at(s@, pos as int, #[trigger] ser_req(q)) implies (next == pos
                + lit_dirs_open().len() + ser_tris_prefix(q.dirs@, ii + 1).len() && (forall|j: int|
                0 <= j < ii + 1 ==> arr@[j] == q.dirs@[j])) by {
                assert(tv == q.dirs@[ii]);
                assert(ser_tris_prefix(q.dirs@, ii + 1) == ser_tris_prefix(q.dirs@, ii) + ser_tri(
                    q.dirs@[ii],
                ) + (if ii + 1 < 8 {
                    seq![44u8]
                } else {
                    Seq::<u8>::empty()
                }));
            }
        }
        cur = next;
        i += 1;
    }
    match eat_lit(s, cur, &close_l) {
        Some(p) => {
            let req = TileRequirements { dirs: arr };
            proof {
                assert(bytes_at(s@, cur as int, lit_dirs_close()));
                lemma_join(s@, p0 as int, ser_tris_prefix(arr@, 8), lit_dirs_close());
                lemma_join(
                    s@,
                    pos as int,
                    lit_dirs_open(),
                    ser_tris_prefix(arr@, 8) + lit_dirs_close(),
                );
                lemma_tris_split(arr@, 8);
                assert(ser_tris_from(arr@, 8) =~= Seq::<u8>::empty());
                assert(ser_tris_prefix(arr@, 8) + ser_tris_from(arr@, 8) =~= ser_tris_prefix(
                    arr@,
                    8,
                ));
                assert(req.dirs@ == arr@);
                assert(ser_req(req) =~= lit_dirs_open() + (ser_tris_prefix(arr@, 8)
                    + lit_dirs_close()));
                assert(bytes_at(s@, pos as int, ser_req(req)));
                assert forall|q: TileRequirements|
                    bytes_at(s@, pos as int, #[trigger] ser_req(q)) implies (req.dirs@ == q.dirs@
                    && p == pos + ser_req(q).len()) by {
                    lemma_tris_split(q.dirs@, 8);
                    assert(ser_tris_from(q.dirs@, 8) =~= Seq::<u8>::empty());
                    assert(ser_tris_prefix(q.dirs@, 8) + ser_tris_from(q.dirs@, 8)
                        =~= ser_tris_prefix(q.dirs@, 8));
                    assert(req.dirs@ =~= q.dirs@);
                }
            }
            Some((req, p))
        },
        None => {
            proof {
                assert forall|q: TileRequirements|
                    !bytes_at(s@, pos as int, #[trigger] ser_req(q)) by {
                    if bytes_at(s@, pos as int, ser_req(q)) {
                        lemma_tris_split(q.dirs@, 8);
                        assert(ser_tris_from(q.dirs@, 8) =~= Seq::<u8>::empty());
                        assert(ser_tris_prefix(q.dirs@, 8) + ser_tris_from(q.dirs@, 8)
                            =~= ser_tris_prefix(q.dirs@, 8));
                        let head = lit_dirs_open() + ser_tris_prefix(q.dirs@, 8);
                        assert(ser_req(q) =~= head + lit_dirs_close());
                        lemma_peel(s@, pos as int, head, lit_dirs_close());
                    }
                }
            }
            None
        },
    }
}

/// Reads one rule entry `"x:y":{"dirs":[...]}`.
#[verifier::rlimit(100)]
#[verifier::spinoff_prover]
fn parse_entry(s: &[u8], pos: usize) -> (r: Option<((GridCoordinate, TileRequirements), usize)>)
    ensures
        r matches Some(v) ==> pos < v.1 <= s@.len(),
        r matches Some(v) ==> bytes_at(s@, pos as int, ser_entry(v.0)) && v.1 == pos + ser_entry(
            v.0,
        ).len(),
        forall|e: (GridCoordinate, TileRequirements)|
            bytes_at(s@, pos as int, #[trigger] ser_entry(e)) ==> (r matches Some(v) && v.0.0
                == e.0 && v.0.1.dirs@ == e.1.dirs@ && v.1 == pos + ser_entry(e).len()),
{
    let p1 = match eat_byte(s, pos, 34) {
        Some(p) => p,
        None => {
            proof {
                assert forall|e: (GridCoordinate, TileRequirements)|
                    !bytes_at(s@, pos as int, #[trigger] ser_entry(e)) by {
                    if bytes_at(s@, pos as int, ser_entry(e)) {
                        assert(s@.subrange(pos as int, pos + ser_entry(e).len())[0] == ser_entry(
                            e,
                        )[0]);
                    }
                }
            }
            return None;
        },
    };
    proof {
        assert forall|e: (GridCoordinate, TileRequirements)|
            bytes_at(s@, pos as int, #[trigger] ser_entry(e)) implies {
            let dx = dec(e.0.x as nat);
            let after_x = p1 + dx.len();
            bytes_at(s@, p1 as int, dx) && after_x < s@.len() && s@[after_x] == 58
        } by {
            let dx = dec(e.0.x as nat);
            let tail1 = seq![58u8] + (dec(e.0.y as nat) + (seq![34u8, 58u8] + ser_req(e.1)));
            assert(ser_entry(e) =~= seq![34u8] + (dx + tail1));
            lemma_peel(s@, pos as int, seq![34u8], dx + tail1);
            lemma_peel(s@, p1 as int, dx, tail1);
            let after_x = p1 + dx.len();
            assert(s@.subrange(after_x, after_x + tail1.len())[0] == tail1[0]);
        }
    }
    let (x, p2) = match parse_usize(s, p1) {
        Some(v) => v,
        None => {
            proof {
                assert forall|e: (GridCoordinate, TileRequirements)|
                    !bytes_at(s@, pos as int, #[trigger] ser_entry(e)) by {
                    if bytes_at(s@, pos as int, ser_entry(e)) {
                        assert(bytes_at(s@, p1 as int, dec(e.0.x as nat)));
                        assert(!is_digit(58));
                    }
                }
            }
            return None;
        },
    };
    let p3 = match eat_byte(s, p2, 58) {
        Some(p) => p,
        None => {
            return None;
        },
    };
    proof {
        assert forall|e: (GridCoordinate, TileRequirements)|
            bytes_at(s@, pos as int, #[trigger] ser_entry(e)) implies {
            let dy = dec(e.0.y as nat);
            p2 == p1 + dec(e.0.x as nat).len() && bytes_at(s@, p2 + 1, dy) && p2 + 1 + dy.len()
                < s@.len() && s@[p2 + 1 + dy.len()] == 34
        } by {
            let dx = dec(e.0.x as nat);
            let dy = dec(e.0.y as nat);
            let tail1 = seq![58u8] + (dy + (seq![34u8, 58u8] + ser_req(e.1)));
            assert(ser_entry(e) =~= seq![34u8] + (dx + tail1));
            lemma_peel(s@, pos as int, seq![34u8], dx + tail1);
            lemma_peel(s@, p1 as int, dx, tail1);
            let after_x = p1 + dx.len();
            lemma_peel(s@, after_x, seq![58u8], dy + (seq![34u8, 58u8] + ser_req(e.1)));
            lemma_peel(s@, after_x + 1, dy, seq![34u8, 58u8] + ser_req(e.1));
            let after_y = after_x + 1 + dy.len();
            assert(s@.subrange(after_y, after_y + 2 + ser_req(e.1).len())[0] == (seq![34u8, 58u8]
                + ser_req(e.1))[0]);
        }
    }
    let (y, p4) = match parse_usize(s, p3) {
        Some(v) => v,
        None => {
            proof {
                assert forall|e: (GridCoordinate, TileRequirements)|
                    !bytes_at(s@, pos as int, #[trigger] ser_entry(e)) by {
                    if bytes_at(s@, pos as int, ser_entry(e)) {
                        assert(bytes_at(s@, p3 as int, dec(e.0.y as nat)));
                        assert(!is_digit(34));
                    }
                }
            }
            return None;
        },
    };
    let p5 = match eat_byte(s, p4, 34) {
        Some(p) => p,
        None => {
            return None;
        },
    };
    proof {
        assert forall|e: (GridCoordinate, TileRequirements)|
            bytes_at(s@, pos as int, #[trigger] ser_entry(e)) implies {
            p4 == p3 + dec(e.0.y as nat).len() && p4 + 1 < s@.len() && s@[p4 + 1] == 58 && bytes_at(
                s@,
                p4 + 2,
                ser_req(e.1),
            )
        } by {
            let dx = dec(e.0.x as nat);
            let dy = dec(e.0.y as nat);
            let tail1 = seq![58u8] + (dy + (seq![34u8, 58u8] + ser_req(e.1)));
            assert(ser_entry(e) =~= seq![34u8] + (dx + tail1));
            lemma_peel(s@, pos as int, seq![34u8], dx + tail1);
            lemma_peel(s@, p1 as int, dx, tail1);
            let after_x = p1 + dx.len();
            lemma_peel(s@, after_x, seq![58u8], dy + (seq![34u8, 58u8] + ser_req(e.1)));
            lemma_peel(s@, after_x + 1, dy, seq![34u8, 58u8] + ser_req(e.1));
            let after_y = after_x + 1 + dy.len();
            assert(seq![34u8, 58u8] + ser_req(e.1) =~= seq![34u8] + (seq![58u8] + ser_req(e.1)));
            lemma_peel(s@, after_y, seq![34u8], seq![58u8] + ser_req(e.1));
            lemma_peel(s@, after_y + 1, seq![58u8], ser_req(e.1));
            assert(s@.subrange(after_y + 1, after_y + 2)[0] == s@[after_y + 1]);
        }
    }
    let p6 = match eat_byte(s, p5, 58) {
        Some(p) => p,
        None => {
            return None;
        },
    };
    match parse_req(s, p6) {
        Some((req, p7)) => {
            let c = GridCoordinate::new(x, y);
            proof {
                assert(s@.subrange(pos as int, pos as int + 1) =~= seq![34u8]);
                assert(bytes_at(s@, pos as int, seq![34u8]));
                lemma_join(s@, pos as int, seq![34u8], dec(x as nat));
                let a2 = seq![34u8] + dec(x as nat);
                assert(s@.subrange(p2 as int, p2 as int + 1) =~= seq![58u8]);
                assert(bytes_at(s@, p2 as int, seq![58u8]));
                lemma_join(s@, pos as int, a2, seq![58u8]);
                let a3 = a2 + seq![58u8];
                lemma_join(s@, pos as int, a3, dec(y as nat));
                let a4 = a3 + dec(y as nat);
                assert(s@.subrange(p4 as int, p4 as int + 1) =~= seq![34u8]);
                assert(bytes_at(s@, p4 as int, seq![34u8]));
                lemma_join(s@, pos as int, a4, seq![34u8]);
                let a5 = a4 + seq![34u8];
                assert(s@.subrange(p5 as int, p5 as int + 1) =~= seq![58u8]);
                assert(bytes_at(s@, p5 as int, seq![58u8]));
                lemma_join(s@, pos as int, a5, seq![58u8]);
                let a6 = a5 + seq![58u8];
                lemma_join(s@, pos as int, a6, ser_req(req));
                assert(ser_entry((c, req)) =~= a6 + ser_req(req));
                assert(bytes_at(s@, pos as int, ser_entry((c, req))));
                assert forall|e: (GridCoordinate, TileRequirements)|
                    bytes_at(s@, pos as int, #[trigger] ser_entry(e)) implies (c == e.0 && req.dirs@
                    == e.1.dirs@ && p7 == pos + ser_entry(e).len()) by {
                    assert(c =~= e.0);
                }
            }
            Some(((c, req), p7))
        },
        None => {
            proof {
                assert forall|e: (GridCoordinate, TileRequirements)|
                    !bytes_at(s@, pos as int, #[trigger] ser_entry(e)) by {
                    if bytes_at(s@, pos as int, ser_entry(e)) {
                        assert(bytes_at(s@, p6 as int, ser_req(e.1)));
                    }
                }
            }
            None
        },
    }
}

/// A sorted rule table sits serialized at `pos`, with the closing brace of
/// the surrounding object right after it.
spec fn rules_at(s: Seq<u8>, pos: int, rules: Seq<(GridCoordinate, TileRequirements)>) -> bool {
    sorted_rule_keys(rules) && bytes_at(s, pos, ser_rules_from(rules, 0)) && pos + ser_rules_from(
        rules,
        0,
    ).len() < s.len() && s[pos + ser_rules_from(rules, 0).len()] == 125
}

/// Reads the comma-separated rule entries up to, but not including, the
/// closing brace, rejecting tables whose keys are not strictly ascending.
#[verifier::rlimit(100)]
#[verifier::spinoff_prover]
fn parse_rules(s: &[u8], pos: usize) -> (r: Option<
    (Vec<(GridCoordinate, TileRequirements)>, usize),
>)
    requires
        pos <= s@.len(),
    ensures
        r matches Some(v) ==> pos <= v.1 <= s@.len() && sorted_rule_keys(v.0@),
        r matches Some(v) ==> bytes_at(s@, pos as int, ser_rules_from(v.0@, 0)) && v.1 == pos
            + ser_rules_from(v.0@, 0).len(),
        forall|rules: Seq<(GridCoordinate, TileRequirements)>|
            #[trigger] rules_at(s@, pos as int, rules) ==> (r matches Some(v) && v.0@ == rules
                && v.1 == pos + ser_rules_from(rules, 0).len()),
{
    if pos < s.len() && s[pos] == 125 {
        let out: Vec<(GridCoordinate, TileRequirements)> = Vec::new();
        proof {
            assert(ser_rules_from(out@, 0) =~= Seq::<u8>::empty());
            assert(s@.subrange(pos as int, pos as int) =~= ser_rules_from(out@, 0));
            assert(bytes_at(s@, pos as int, ser_rules_from(out@, 0)));
            assert forall|rules: Seq<(GridCoordinate, TileRequirements)>| #[trigger]
                rules_at(s@, pos as int, rules) implies (out@ == rules && pos == pos
                + ser_rules_from(rules, 0).len()) by {
                if rules.len() > 0 {
                    assert(ser_entry(rules[0])[0] == 34);
                    assert(ser_rules_from(rules, 0)[0] == 34);
                    assert(s@.subrange(pos as int, pos + ser_rules_from(rules, 0).len())[0]
                        == ser_rules_from(rules, 0)[0]);
                    assert(false);
                }
                assert(out@ =~= rules);
            }
        }
        return Some((out, pos));
    }
    let mut out: Vec<(GridCoordinate, TileRequirements)> = Vec::new();
    let mut cur = pos;
    proof {
        assert(ser_rules_allc(out@, 0) =~= Seq::<u8>::empty());
        assert(s@.subrange(pos as int, pos as int) =~= ser_rules_allc(out@, 0));
        assert(bytes_at(s@, pos as int, ser_rules_allc(out@, 0)));
    }
    loop
        invariant
            pos <= cur <= s@.len(),
            sorted_rule_keys(out@),
            bytes_at(s@, pos as int, ser_rules_allc(out@, out@.len() as int)),
            cur == pos + ser_rules_allc(out@, out@.len() as int).len(),
            forall|rules: Seq<(GridCoordinate, TileRequirements)>|
                #[trigger] rules_at(s@, pos as int, rules) ==> (out@.len() < rules.len() && out@
                    == rules.take(out@.len() as int) && cur == pos + ser_rules_prefix(
                    rules,
                    out@.len() as int,
                ).len()),
        decreases s@.len() - cur,
    {
        let ghost k = out@.len() as int;
        proof {
            assert forall|rules: Seq<(GridCoordinate, TileRequirements)>|
                #[trigger] rules_at(s@, pos as int, rules) implies {
                let entry = ser_entry(rules[k]);
                bytes_at(s@, cur as int, entry) && (k + 1 < rules.len() ==> cur + entry.len()
                    < s@.len() && s@[cur + entry.len()] == 44) && (k + 1 == rules.len() ==> cur
                    + entry.len() == pos + ser_rules_from(rules, 0).len())
            } by {
                lemma_rules_split(rules, k);
                let entry = ser_entry(rules[k]);
                let rest = if k + 1 < rules.len() {
                    seq![44u8] + ser_rules_from(rules, k + 1)
                } else {
                    Seq::<u8>::empty()
                };
                assert(ser_rules_from(rules, k) == entry + rest);
                assert(ser_rules_from(rules, 0) =~= ser_rules_prefix(rules, k) + (entry + rest));
                lemma_peel(s@, pos as int, ser_rules_prefix(rules, k), entry + rest);
                lemma_peel(s@, cur as int, entry, rest);
                if k + 1 < rules.len() {
                    lemma_peel(
                        s@,
                        cur + entry.len(),
                        seq![44u8],
                        ser_rules_from(rules, k + 1),
                    );
                    assert(s@.subrange(cur + entry.len(), cur + entry.len() + 1)[0] == s@[cur
                        + entry.len()]);
                }
            }
        }
        let parsed = match parse_entry(s, cur) {
            Some(v) => v,
            None => {
                proof {
                    assert forall|rules: Seq<(GridCoordinate, TileRequirements)>|
                        !rules_at(s@, pos as int, rules) by {
                        if rules_at(s@, pos as int, rules) {
                            assert(bytes_at(s@, cur as int, ser_entry(rules[k])));
                        }
                    }
                }
                return None;
            },
        };
        let ((c, req), p) = parsed;
        if out.len() > 0 {
            let last = out[out.len() - 1].0;
            if !(last.x < c.x || (last.x == c.x && last.y < c.y)) {
                proof {
                    assert forall|rules: Seq<(GridCoordinate, TileRequirements)>|
                        !rules_at(s@, pos as int, rules) by {
                        if rules_at(s@, pos as int, rules) {
                            assert(c =~= rules[k].0);
                            assert(out@[k - 1] == rules.take(k)[k - 1]);
                            assert(last == rules[k - 1].0);
                            assert(coord_lt(rules[k - 1].0, rules[k].0));
                        }
                    }
                }
                return None;
            }
        }
        let ghost pre_out = out@;
        out.push((c, req));
        proof {
            lemma_rules_allc_congruence(pre_out, out@, k);
            assert(bytes_at(s@, pos as int, ser_rules_allc(out@, k)));
            lemma_join(s@, pos as int, ser_rules_allc(out@, k), ser_entry((c, req)));
            assert(out@[k] == (c, req));
            assert forall|i: int, j: int|
                0 <= i < j < out@.len() implies coord_lt(
                (#[trigger] out@[i]).0,
                (#[trigger] out@[j]).0,
            ) by {
                if j == out@.len() - 1 {
                    if i < j - 1 {
                        assert(coord_lt(pre_out[i].0, pre_out[j - 1].0));
                    }
                } else {
                    assert(coord_lt(pre_out[i].0, pre_out[j].0));
                }
            }
        }
        if p < s.len() && s[p] == 44 {
            proof {
                assert(s@.subrange(p as int, p as int + 1) =~= seq![44u8]);
                assert(bytes_at(s@, p as int, seq![44u8]));
                lemma_join(
                    s@,
                    pos as int,
                    ser_rules_allc(out@, k) + ser_entry((c, req)),
                    seq![44u8],
                );
                assert(ser_rules_allc(out@, k + 1) == ser_rules_allc(out@, k) + ser_entry(out@[k])
                    + seq![44u8]);
                assert(bytes_at(s@, pos as int, ser_rules_allc(out@, k + 1)));
                assert forall|rules: Seq<(GridCoordinate, TileRequirements)>|
                    #[trigger] rules_at(s@, pos as int, rules) implies (out@.len() < rules.len()
                    && out@ == rules.take(out@.len() as int) && p + 1 == pos + ser_rules_prefix(
                    rules,
                    out@.len() as int,
                ).len()) by {
                    assert(c =~= rules[k].0);
                    assert(req.dirs@ == rules[k].1.dirs@);
                    assert((c, req) =~= rules[k]);
                    assert(p == cur + ser_entry(rules[k]).len());
                    if k + 1 == rules.len() {
                        assert(s@[p as int] == 125);
                        assert(false);
                    }
                    assert(out@ =~= rules.take(k + 1));
                    assert(ser_rules_prefix(rules, k + 1) == ser_rules_prefix(rules, k)
                        + ser_entry(rules[k]) + seq![44u8]);
                }
            }
            cur = p + 1;
        } else {
            proof {
                assert forall|rules: Seq<(GridCoordinate, TileRequirements)>|
                    #[trigger] rules_at(s@, pos as int, rules) implies (out@ == rules && p == pos
                    + ser_rules_from(rules, 0).len()) by {
                    assert(c =~= rules[k].0);
                    assert(req.dirs@ == rules[k].1.dirs@);
                    assert((c, req) =~= rules[k]);
                    assert(p == cur + ser_entry(rules[k]).len());
                    if k + 1 < rules.len() {
                        assert(p < s@.len() && s@[p as int] == 44);
                        assert(false);
                    }
                    assert(out@ =~= rules.take(k + 1));
                    assert(rules.take(k + 1) =~= rules);
                }
            }
            proof {
                if k == 0 {
                    assert(ser_rules_allc(out@, 0) =~= Seq::<u8>::empty());
                    assert(ser_rules_from(out@, 0) == ser_entry(out@[0]));
                    assert(ser_rules_allc(out@, 0) + ser_entry((c, req)) =~= ser_rules_from(
                        out@,
                        0,
                    ));
                } else {
                    lemma_rules_allc_split(out@, k);
                    assert(ser_rules_from(out@, k) == ser_entry(out@[k]));
                    assert(ser_rules_allc(out@, k) + ser_entry((c, req)) =~= ser_rules_from(
                        out@,
                        0,
                    ));
                }
                assert(bytes_at(s@, pos as int, ser_rules_from(out@, 0)));
            }
            return Some((out, p));
        }
    }
}

/// Raised when bytes do not hold a rule-table document of the persisted
/// shape — among them any malformed coordinate key.
#[derive(Clone, Copy, PartialEq, Eq, Structural, Debug)]
pub struct ParseError {
    pub at: usize,
}

/// Offsets of the pieces of a serialized configuration.
pub open spec fn off_rules(m: TilemapSpriteConfig) -> int {
    lit_header().len() as int
}

pub open spec fn off_gwl(m: TilemapSpriteConfig) -> int {
    off_rules(m) + ser_rules_from(m.rules(), 0).len()
}

pub open spec fn off_gw(m: TilemapSpriteConfig) -> int {
    off_gwl(m) + lit_grid_width().len()
}

pub open spec fn off_ghl(m: TilemapSpriteConfig) -> int {
    off_gw(m) + dec(m.grid_width as nat).len()
}

pub open spec fn off_gh(m: TilemapSpriteConfig) -> int {
    off_ghl(m) + lit_grid_height().len()
}

pub open spec fn off_twl(m: TilemapSpriteConfig) -> int {
    off_gh(m) + dec(m.grid_height as nat).len()
}

pub open spec fn off_tw(m: TilemapSpriteConfig) -> int {
    off_twl(m) + lit_tile_width().len()
}

pub open spec fn off_thl(m: TilemapSpriteConfig) -> int {
    off_tw(m) + dec(m.tile_width as nat).len()
}

pub open spec fn off_th(m: TilemapSpriteConfig) -> int {
    off_thl(m) + lit_tile_height().len()
}

pub open spec fn off_end(m: TilemapSpriteConfig) -> int {
    off_th(m) + dec(m.tile_height as nat).len()
}

/// Where each piece of a serialized configuration sits.
#[verifier::rlimit(100)]
#[verifier::spinoff_prover]
proof fn lemma_ser_decompose(s: Seq<u8>, m: TilemapSpriteConfig)
    requires
        s == spec_ser(m),
        m.rules_sorted(),
    ensures
        s.len() == off_end(m) + 1,
        bytes_at(s, 0, lit_header()),
        rules_at(s, off_rules(m), m.rules()),
        bytes_at(s, off_gwl(m), lit_grid_width()),
        bytes_at(s, off_gw(m), dec(m.grid_width as nat)),
        bytes_at(s, off_ghl(m), lit_grid_height()),
        bytes_at(s, off_gh(m), dec(m.grid_height as nat)),
        bytes_at(s, off_twl(m), lit_tile_width()),
        bytes_at(s, off_tw(m), dec(m.tile_width as nat)),
        bytes_at(s, off_thl(m), lit_tile_height()),
        bytes_at(s, off_th(m), dec(m.tile_height as nat)),
        s[off_end(m)] == 125,
        s[off_gwl(m)] == 125,
        s[off_ghl(m)] == 44,
        s[off_twl(m)] == 44,
        s[off_thl(m)] == 44,
{
    let rr = ser_rules_from(m.rules(), 0);
    let dgw = dec(m.grid_width as nat);
    let dgh = dec(m.grid_height as nat);
    let dtw = dec(m.tile_width as nat);
    let dth = dec(m.tile_height as nat);
    let w1 = lit_header() + rr;
    let w2 = w1 + lit_grid_width();
    let w3 = w2 + dgw;
    let w4 = w3 + lit_grid_height();
    let w5 = w4 + dgh;
    let w6 = w5 + lit_tile_width();
    let w7 = w6 + dtw;
    let w8 = w7 + lit_tile_height();
    let w9 = w8 + dth;
    assert(s.subrange(0, w9.len() as int + 1) =~= s);
    lemma_peel(s, 0, w9, seq![125u8]);
    lemma_peel(s, 0, w8, dth);
    lemma_peel(s, 0, w7, lit_tile_height());
    lemma_peel(s, 0, w6, dtw);
    lemma_peel(s, 0, w5, lit_tile_width());
    lemma_peel(s, 0, w4, dgh);
    lemma_peel(s, 0, w3, lit_grid_height());
    lemma_peel(s, 0, w2, dgw);
    lemma_peel(s, 0, w1, lit_grid_width());
    lemma_peel(s, 0, lit_header(), rr);
    assert(s.subrange(off_end(m), off_end(m) + 1)[0] == s[off_end(m)]);
    assert(s.subrange(off_gwl(m), off_gwl(m) + lit_grid_width().len())[0] == s[off_gwl(m)]);
    assert(s.subrange(off_ghl(m), off_ghl(m) + lit_grid_height().len())[0] == s[off_ghl(m)]);
    assert(s.subrange(off_twl(m), off_twl(m) + lit_tile_width().len())[0] == s[off_twl(m)]);
    assert(s.subrange(off_thl(m), off_thl(m) + lit_tile_height().len())[0] == s[off_thl(m)]);
}

impl TilemapSpriteConfig {
    /// Rebuilds a configuration from its serialized form. Reading back what
    /// `to_bytes` wrote recovers the rule table and the geometry exactly;
    /// anything that is not such a document — a malformed coordinate key
    /// included — is a hard parse error.
    #[verifier::rlimit(100)]
    #[verifier::spinoff_prover]
    pub fn from_bytes(s: &[u8]) -> (r: Result<TilemapSpriteConfig, ParseError>)
        ensures
            r matches Ok(c) ==> c.wf() && (forall|o: Orientation|
                #[trigger] c.candidates(o).len() == 0),
            r matches Ok(c) ==> s@ == spec_ser(c),
            forall|m: TilemapSpriteConfig|
                (m.rules_sorted() && s@ == #[trigger] spec_ser(m)) ==> (r matches Ok(c) && c.rules()
                    == m.rules() && c.grid_width == m.grid_width && c.grid_height == m.grid_height
                    && c.tile_width == m.tile_width && c.tile_height == m.tile_height),
    {
        let header = lit_header_vec();
        let gwl = lit_grid_width_vec();
        let ghl = lit_grid_height_vec();
        let twl = lit_tile_width_vec();
        let thl = lit_tile_height_vec();
        let p0 = match eat_lit(s, 0, &header) {
            Some(p) => p,
            None => {
                proof {
                    assert forall|m: TilemapSpriteConfig|
                        !(m.rules_sorted() && s@ == #[trigger] spec_ser(m)) by {
                        if m.rules_sorted() && s@ == spec_ser(m) {
                            lemma_ser_decompose(s@, m);
                        }
                    }
                }
                return Err(ParseError { at: 0 });
            },
        };
        let (rules, p1) = match parse_rules(s, p0) {
            Some(v) => v,
            None => {
                proof {
                    assert forall|m: TilemapSpriteConfig|
                        !(m.rules_sorted() && s@ == #[trigger] spec_ser(m)) by {
                        if m.rules_sorted() && s@ == spec_ser(m) {
                            lemma_ser_decompose(s@, m);
                        }
                    }
                }
                return Err(ParseError { at: p0 });
            },
        };
        let p2 = match eat_lit(s, p1, &gwl) {
            Some(p) => p,
            None => {
                proof {
                    assert forall|m: TilemapSpriteConfig|
                        !(m.rules_sorted() && s@ == #[trigger] spec_ser(m)) by {
                        if m.rules_sorted() && s@ == spec_ser(m) {
                            lemma_ser_decompose(s@, m);
                        }
                    }
                }
                return Err(ParseError { at: p1 });
            },
        };
        let (gw, p3) = match parse_usize(s, p2) {
            Some(v) => v,
            None => {
                proof {
                    assert forall|m: TilemapSpriteConfig|
                        !(m.rules_sorted() && s@ == #[trigger] spec_ser(m)) by {
                        if m.rules_sorted() && s@ == spec_ser(m) {
                            lemma_ser_decompose(s@, m);
                        }
                    }
                }
                return Err(ParseError { at: p2 });
            },
        };
        let p4 = match eat_lit(s, p3, &ghl) {
            Some(p) => p,
            None => {
                proof {
                    assert forall|m: TilemapSpriteConfig|
                        !(m.rules_sorted() && s@ == #[trigger] spec_ser(m)) by {
                        if m.rules_sorted() && s@ == spec_ser(m) {
                            lemma_ser_decompose(s@, m);
                        }
                    }
                }
                return Err(ParseError { at: p3 });
            },
        };
        let (gh, p5) = match parse_usize(s, p4) {
            Some(v) => v,
            None => {
                proof {
                    assert forall|m: TilemapSpriteConfig|
                        !(m.rules_sorted() && s@ == #[trigger] spec_ser(m)) by {
                        if m.rules_sorted() && s@ == spec_ser(m) {
                            lemma_ser_decompose(s@, m);
                        }
                    }
                }
                return Err(ParseError { at: p4 });
            },
        };
        let p6 = match eat_lit(s, p5, &twl) {
            Some(p) => p,
            None => {
                proof {
                    assert forall|m: TilemapSpriteConfig|
                        !(m.rules_sorted() && s@ == #[trigger] spec_ser(m)) by {
                        if m.rules_sorted() && s@ == spec_ser(m) {
                            lemma_ser_decompose(s@, m);
                        }
                    }
                }
                return Err(ParseError { at: p5 });
            },
        };
        let (tw, p7) = match parse_usize(s, p6) {
            Some(v) => v,
            None => {
                proof {
                    assert forall|m: TilemapSpriteConfig|
                        !(m.rules_sorted() && s@ == #[trigger] spec_ser(m)) by {
                        if m.rules_sorted() && s@ == spec_ser(m) {
                            lemma_ser_decompose(s@, m);
                        }
                    }
                }
                return Err(ParseError { at: p6 });
            },
        };
        let p8 = match eat_lit(s, p7, &thl) {
            Some(p) => p,
            None => {
                proof {
                    assert forall|m: TilemapSpriteConfig|
                        !(m.rules_sorted() && s@ == #[trigger] spec_ser(m)) by {
                        if m.rules_sorted() && s@ == spec_ser(m) {
                            lemma_ser_decompose(s@, m);
                        }
                    }
                }
                return Err(ParseError { at: p7 });
            },
        };
        let (th, p9) = match parse_usize(s, p8) {
            Some(v) => v,
            None => {
                proof {
                    assert forall|m: TilemapSpriteConfig|
                        !(m.rules_sorted() && s@ == #[trigger] spec_ser(m)) by {
                        if m.rules_sorted() && s@ == spec_ser(m) {
                            lemma_ser_decompose(s@, m);
                        }
                    }
                }
                return Err(ParseError { at: p8 });
            },
        };
        let p10 = match eat_byte(s, p9, 125) {
            Some(p) => p,
            None => {
                proof {
                    assert forall|m: TilemapSpriteConfig|
                        !(m.rules_sorted() && s@ == #[trigger] spec_ser(m)) by {
                        if m.rules_sorted() && s@ == spec_ser(m) {
                            lemma_ser_decompose(s@, m);
                        }
                    }
                }
                return Err(ParseError { at: p9 });
            },
        };
        if p10 != s.len() {
            proof {
                assert forall|m: TilemapSpriteConfig|
                    !(m.rules_sorted() && s@ == #[trigger] spec_ser(m)) by {
                    if m.rules_sorted() && s@ == spec_ser(m) {
                        lemma_ser_decompose(s@, m);
                    }
                }
            }
            return Err(ParseError { at: p10 });
        }
        let c = TilemapSpriteConfig {
            orientations: rules,
            coordinates: crate::sprite_config::CoordinateSet::new(),
            grid_width: gw,
            grid_height: gh,
            tile_width: tw,
            tile_height: th,
        };
        proof {
            let rv = c.rules();
            assert(bytes_at(s@, 0, lit_header()));
            assert(bytes_at(s@, p0 as int, ser_rules_from(rv, 0)));
            lemma_join(s@, 0, lit_header(), ser_rules_from(rv, 0));
            let a1 = lit_header() + ser_rules_from(rv, 0);
            assert(bytes_at(s@, p1 as int, lit_grid_width()));
            lemma_join(s@, 0, a1, lit_grid_width());
            let a2 = a1 + lit_grid_width();
            lemma_join(s@, 0, a2, dec(gw as nat));
            let a3 = a2 + dec(gw as nat);
            assert(bytes_at(s@, p3 as int, lit_grid_height()));
            lemma_join(s@, 0, a3, lit_grid_height());
            let a4 = a3 + lit_grid_height();
            lemma_join(s@, 0, a4, dec(gh as nat));
            let a5 = a4 + dec(gh as nat);
            assert(bytes_at(s@, p5 as int, lit_tile_width()));
            lemma_join(s@, 0, a5, lit_tile_width());
            let a6 = a5 + lit_tile_width();
            lemma_join(s@, 0, a6, dec(tw as nat));
            let a7 = a6 + dec(tw as nat);
            assert(bytes_at(s@, p7 as int, lit_tile_height()));
            lemma_join(s@, 0, a7, lit_tile_height());
            let a8 = a7 + lit_tile_height();
            lemma_join(s@, 0, a8, dec(th as nat));
            let a9 = a8 + dec(th as nat);
            assert(s@.subrange(p9 as int, p9 as int + 1) =~= seq![125u8]);
            assert(bytes_at(s@, p9 as int, seq![125u8]));
            lemma_join(s@, 0, a9, seq![125u8]);
            let a10 = a9 + seq![125u8];
            assert(a10.len() == p10);
            assert(s@.subrange(0, s@.len() as int) =~= s@);
            assert(s@ == a10);
            assert(spec_ser(c) == a10);
            assert forall|m: TilemapSpriteConfig|
                (m.rules_sorted() && s@ == #[trigger] spec_ser(m)) implies (c.rules() == m.rules()
                && c.grid_width == m.grid_width && c.grid_height == m.grid_height && c.tile_width
                == m.tile_width && c.tile_height == m.tile_height) by {
                lemma_ser_decompose(s@, m);
            }
        }
        Ok(c)
    }

    /// Builds a configuration from persisted bytes when they hold a valid
    /// rule-table document, and falls back to a fresh `new` configuration of
    /// the given geometry when there is no content or it does not parse.
    /// Either way the derived index is synchronized before the configuration
    /// is handed out, so lookups are never stale.
    pub fn new_or_load(content: Option<Vec<u8>>, grid_width: usize, grid_height: usize) -> (r:
        TilemapSpriteConfig)
        ensures
            r.wf(),
            r.synced(),
            match content {
                Some(b) => (forall|m: TilemapSpriteConfig|
                    (m.rules_sorted() && b@ == #[trigger] spec_ser(m)) ==> (r.rules() == m.rules()
                        && r.grid_width == m.grid_width && r.grid_height == m.grid_height
                        && r.tile_width == m.tile_width && r.tile_height == m.tile_height)) && ((
                forall|m: TilemapSpriteConfig| m.rules_sorted() ==> b@ != #[trigger] spec_ser(m))
                    ==> (r.rules().len() == 0 && r.grid_width == grid_width && r.grid_height
                    == grid_height && r.tile_width == 8 && r.tile_height == 8)),
                None => r.rules().len() == 0 && r.grid_width == grid_width && r.grid_height
                    == grid_height && r.tile_width == 8 && r.tile_height == 8,
            },
    {
        let mut config = match content {
            Some(bytes) => match TilemapSpriteConfig::from_bytes(bytes.as_slice()) {
                Ok(c) => c,
                Err(_) => TilemapSpriteConfig::new(grid_width, grid_height),
            },
            None => TilemapSpriteConfig::new(grid_width, grid_height),
        };
        config.sync_coordinates();
        config
    }

    /// The canonical serialized form of the configuration: the rule table
    /// and the sheet geometry, never the derived index.
    pub fn to_bytes(&self) -> (r: Vec<u8>)
        ensures
            r@ == spec_ser(*self),
    {
        let mut v: Vec<u8> = Vec::new();
        let header = lit_header_vec();
        push_all(&mut v, &header);
        let n = self.orientations.len();
        let mut i: usize = 0;
        while i < n
            invariant
                i <= n,
                n == self.rules().len(),
                v@ == lit_header() + ser_rules_prefix(self.rules(), i as int),
            decreases n - i,
        {
            let (c, req) = self.orientations[i];
            push_entry(&mut v, c, &req);
            if i + 1 < n {
                v.push(44);
            }
            proof {
                assert(v@ =~= lit_header() + ser_rules_prefix(self.rules(), i as int + 1));
            }
            i += 1;
        }
        proof {
            lemma_rules_split(self.rules(), n as int);
            assert(ser_rules_from(self.rules(), n as int) =~= Seq::<u8>::empty());
            assert(ser_rules_prefix(self.rules(), n as int) =~= ser_rules_from(self.rules(), 0));
        }
        let gw = lit_grid_width_vec();
        push_all(&mut v, &gw);
        push_usize(&mut v, self.grid_width);
        let gh = lit_grid_height_vec();
        push_all(&mut v, &gh);
        push_usize(&mut v, self.grid_height);
        let tw = lit_tile_width_vec();
        push_all(&mut v, &tw);
        push_usize(&mut v, self.tile_width);
        let th = lit_tile_height_vec();
        push_all(&mut v, &th);
        push_usize(&mut v, self.tile_height);
        v.push(125);
        proof {
            assert(v@ =~= spec_ser(*self));
        }
        v
    }
}

} // verus!

