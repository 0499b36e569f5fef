//! Reading the name of a segment file gives back what it was written from.

use vstd::prelude::*;
use crate::names::{
    all_hex, digit_value, digits_of, file_name, first_dot, hex_digit, hex_field, hex_number,
    name_start, parse_hex, parse_path,
};
use crate::SegmentId;

verus! {

/// 16 to the power `w`: how many numbers `w` hexadecimal digits can spell.
pub open spec fn hex_pow(w: nat) -> nat
    decreases w,
{
    if w == 0 {
        1
    } else {
        16 * hex_pow((w - 1) as nat)
    }
}

/// A character of a written number: a hexadecimal digit, and none of the
/// marks that part a name.
pub open spec fn plain_digit(c: char) -> bool {
    digit_value(c) is Some && c != '.' && c != '/' && c != '+'
}

pub proof fn lemma_hex_digit(d: nat)
    requires
        d < 16,
    ensures
        digit_value(hex_digit(d)) == Some(d),
        plain_digit(hex_digit(d)),
{
}

/// A written number has the digits it was asked for, all of them plain,
/// and spells the number where the number fits.
pub proof fn lemma_hex_field(v: nat, w: nat)
    ensures
        hex_field(v, w).len() == w,
        forall|i: int| 0 <= i < w ==> plain_digit(#[trigger] hex_field(v, w)[i]),
        v < hex_pow(w) ==> hex_number(hex_field(v, w)) == v,
    decreases w,
{
    if w > 0 {
        let f = hex_field(v, w);
        let init = hex_field(v / 16, (w - 1) as nat);
        lemma_hex_field(v / 16, (w - 1) as nat);
        lemma_hex_digit(v % 16);
        assert(f.drop_last() =~= init);
        assert forall|i: int| 0 <= i < w implies plain_digit(#[trigger] f[i]) by {
            if i < w - 1 {
                assert(f[i] == init[i]);
            }
        }
    }
}

/// The first `.` from `from` on is at `k` where no `.` stands before it.
pub proof fn lemma_first_dot_at(s: Seq<char>, from: int, k: int)
    requires
        0 <= from <= k <= s.len(),
        forall|j: int| from <= j < k ==> s[j] != '.',
        k < s.len() ==> s[k] == '.',
    ensures
        first_dot(s, from) == k,
    decreases k - from,
{
    if from < k {
        lemma_first_dot_at(s, from + 1, k);
    }
}

/// A name without `/` begins after the `/` that parts it from its
/// directory.
pub proof fn lemma_name_start(dir: Seq<char>, name: Seq<char>)
    requires
        forall|i: int| 0 <= i < name.len() ==> name[i] != '/',
    ensures
        name_start(dir + seq!['/'] + name) == dir.len() + 1,
    decreases name.len(),
{
    let path = dir + seq!['/'] + name;
    if name.len() == 0 {
        assert(path.last() == '/');
    } else {
        assert(path.last() == name.last());
        assert(path.drop_last() =~= dir + seq!['/'] + name.drop_last());
        lemma_name_start(dir, name.drop_last());
    }
}

/// A written number is read back.
pub proof fn lemma_parse_hex_field(v: nat, max: nat)
    requires
        v <= max,
        v < hex_pow(8),
    ensures
        parse_hex(hex_field(v, 8), max) == Some(v),
{
    lemma_hex_field(v, 8);
    let f = hex_field(v, 8);
    assert(plain_digit(f[0]));
    assert(digits_of(f) == f);
    assert(all_hex(f)) by {
        assert forall|i: int| 0 <= i < f.len() implies digit_value(#[trigger] f[i]) is Some by {
            assert(plain_digit(f[i]));
        }
    }
}

/// A name that was written says what it was written from, wherever the
/// file is kept.
pub proof fn lemma_name_round_trip(dir: Seq<char>, id: SegmentId, visible: bool)
    ensures
        parse_path(dir + seq!['/'] + file_name(id, visible)) == Some((id.0, id.1, visible)),
{
    let t = hex_field(id.0 as nat, 8);
    let n = hex_field(id.1 as nat, 8);
    let name = file_name(id, visible);
    lemma_hex_field(id.0 as nat, 8);
    lemma_hex_field(id.1 as nat, 8);
    assert(hex_pow(8) == 0x1_0000_0000) by {
        reveal_with_fuel(hex_pow, 9);
    }
    assert forall|i: int| 0 <= i < name.len() implies name[i] != '/' by {
        if i < 8 {
            assert(plain_digit(t[i]));
        } else if 9 <= i < 17 {
            assert(plain_digit(n[i - 9]));
        }
    }
    lemma_name_start(dir, name);
    let path = dir + seq!['/'] + name;
    assert(path.skip(dir.len() as int + 1) =~= name);
    assert forall|j: int| 0 <= j < 8 implies name[j] != '.' by {
        assert(plain_digit(t[j]));
    }
    lemma_first_dot_at(name, 0, 8);
    assert forall|j: int| 9 <= j < 17 implies name[j] != '.' by {
        assert(plain_digit(n[j - 9]));
    }
    lemma_first_dot_at(name, 9, 17);
    assert(name.subrange(0, 8) =~= t);
    assert(name.subrange(9, 17) =~= n);
    lemma_parse_hex_field(id.0 as nat, 0xFFFF_FFFF);
    lemma_parse_hex_field(id.1 as nat, 0xFFFF);
    if !visible {
        lemma_first_dot_at(name, 18, 21);
        assert(name.subrange(18, 21) =~= seq!['t', 'm', 'p']);
    }
}

} // verus!
