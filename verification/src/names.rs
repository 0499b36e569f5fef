//! The names of segment files.
//!
//! A segment of transaction `t` with number `n` is kept in the file
//! `tttttttt.nnnnnnnn`, both in lower-case hexadecimal padded to eight
//! digits; while it is not committed the name ends in `.tmp`.
//!
//! Reading a name is more lenient than writing one: a number may have any
//! count of hexadecimal digits of either case and a leading `+`, as long
//! as it fits its type; after the two numbers, nothing or `tmp` must
//! follow, and what stands after a further `.` is not looked at.

use vstd::prelude::*;
use crate::text::{chars_of, push_char, push_text};
use crate::{SegmentId, SegmentNum, TransactionId};

verus! {

/// The lower-case hexadecimal digit for `d`.
pub open spec fn hex_digit(d: nat) -> char {
    if d == 0 {
        '0'
    } else if d == 1 {
        '1'
    } else if d == 2 {
        '2'
    } else if d == 3 {
        '3'
    } else if d == 4 {
        '4'
    } else if d == 5 {
        '5'
    } else if d == 6 {
        '6'
    } else if d == 7 {
        '7'
    } else if d == 8 {
        '8'
    } else if d == 9 {
        '9'
    } else if d == 10 {
        'a'
    } else if d == 11 {
        'b'
    } else if d == 12 {
        'c'
    } else if d == 13 {
        'd'
    } else if d == 14 {
        'e'
    } else {
        'f'
    }
}

/// The value of a hexadecimal digit of either case.
pub open spec fn digit_value(c: char) -> Option<nat> {
    if c == '0' {
        Some(0)
    } else if c == '1' {
        Some(1)
    } else if c == '2' {
        Some(2)
    } else if c == '3' {
        Some(3)
    } else if c == '4' {
        Some(4)
    } else if c == '5' {
        Some(5)
    } else if c == '6' {
        Some(6)
    } else if c == '7' {
        Some(7)
    } else if c == '8' {
        Some(8)
    } else if c == '9' {
        Some(9)
    } else if c == 'a' || c == 'A' {
        Some(10)
    } else if c == 'b' || c == 'B' {
        Some(11)
    } else if c == 'c' || c == 'C' {
        Some(12)
    } else if c == 'd' || c == 'D' {
        Some(13)
    } else if c == 'e' || c == 'E' {
        Some(14)
    } else if c == 'f' || c == 'F' {
        Some(15)
    } else {
        None
    }
}

/// `v` in `width` lower-case hexadecimal digits, the lowest `width` of
/// them where it has more.
pub open spec fn hex_field(v: nat, width: nat) -> Seq<char>
    decreases width,
{
    if width == 0 {
        Seq::empty()
    } else {
        hex_field(v / 16, (width - 1) as nat).push(hex_digit(v % 16))
    }
}

/// The file name of a segment.
pub open spec fn file_name(id: SegmentId, visible: bool) -> Seq<char> {
    hex_field(id.0 as nat, 8) + seq!['.'] + hex_field(id.1 as nat, 8) + (if visible {
        Seq::empty()
    } else {
        seq!['.', 't', 'm', 'p']
    })
}

/// Every character is a hexadecimal digit.
pub open spec fn all_hex(s: Seq<char>) -> bool {
    forall|i: int| 0 <= i < s.len() ==> digit_value(#[trigger] s[i]) is Some
}

/// The number that hexadecimal digits spell.
pub open spec fn hex_number(s: Seq<char>) -> nat
    decreases s.len(),
{
    if s.len() == 0 {
        0
    } else {
        hex_number(s.drop_last()) * 16 + digit_value(s.last()).unwrap_or(0)
    }
}

/// The digits of a number: what follows its `+`, if it has one.
pub open spec fn digits_of(s: Seq<char>) -> Seq<char> {
    if s.len() > 0 && s[0] == '+' {
        s.skip(1)
    } else {
        s
    }
}

/// The number that `s` spells in hexadecimal, where it spells one that is
/// at most `max`.
pub open spec fn parse_hex(s: Seq<char>, max: nat) -> Option<nat> {
    let digits = digits_of(s);
    if digits.len() == 0 || !all_hex(digits) || hex_number(digits) > max {
        None
    } else {
        Some(hex_number(digits))
    }
}

/// The first position from `from` on that holds a `.`, or the length.
pub open spec fn first_dot(s: Seq<char>, from: int) -> int
    decreases s.len() - from,
{
    if from < 0 || from >= s.len() {
        s.len() as int
    } else if s[from] == '.' {
        from
    } else {
        first_dot(s, from + 1)
    }
}

/// What a file name says: the transaction, the segment number, and
/// whether the segment is committed.
pub open spec fn parse_name(s: Seq<char>) -> Option<(TransactionId, SegmentNum, bool)> {
    let a = first_dot(s, 0);
    if a >= s.len() {
        None
    } else {
        let b = first_dot(s, a + 1);
        match (parse_hex(s.subrange(0, a), 0xFFFF_FFFF), parse_hex(s.subrange(a + 1, b), 0xFFFF)) {
            (Some(t), Some(n)) => {
                if b >= s.len() {
                    Some((t as u32, n as u16, true))
                } else {
                    let c = first_dot(s, b + 1);
                    if s.subrange(b + 1, c) == seq!['t', 'm', 'p'] {
                        Some((t as u32, n as u16, false))
                    } else {
                        None
                    }
                }
            },
            _ => None,
        }
    }
}

/// Where the file name begins in a path: after its last `/`.
pub open spec fn name_start(path: Seq<char>) -> int
    decreases path.len(),
{
    if path.len() == 0 {
        0
    } else if path.last() == '/' {
        path.len() as int
    } else {
        name_start(path.drop_last())
    }
}

/// What the file name of a path says.
pub open spec fn parse_path(path: Seq<char>) -> Option<(TransactionId, SegmentNum, bool)> {
    parse_name(path.skip(name_start(path)))
}

/// The lower-case hexadecimal digit for `d`.
fn hex_char(d: u32) -> (c: char)
    requires
        d < 16,
    ensures
        c == hex_digit(d as nat),
{
    if d == 0 {
        '0'
    } else if d == 1 {
        '1'
    } else if d == 2 {
        '2'
    } else if d == 3 {
        '3'
    } else if d == 4 {
        '4'
    } else if d == 5 {
        '5'
    } else if d == 6 {
        '6'
    } else if d == 7 {
        '7'
    } else if d == 8 {
        '8'
    } else if d == 9 {
        '9'
    } else if d == 10 {
        'a'
    } else if d == 11 {
        'b'
    } else if d == 12 {
        'c'
    } else if d == 13 {
        'd'
    } else if d == 14 {
        'e'
    } else {
        'f'
    }
}

/// The value of a hexadecimal digit of either case.
fn digit_of(c: char) -> (r: Option<u64>)
    ensures
        match digit_value(c) {
            Some(d) => r == Some(d as u64),
            None => r is None,
        },
        r matches Some(d) ==> d < 16,
{
    if c == '0' {
        Some(0)
    } else if c == '1' {
        Some(1)
    } else if c == '2' {
        Some(2)
    } else if c == '3' {
        Some(3)
    } else if c == '4' {
        Some(4)
    } else if c == '5' {
        Some(5)
    } else if c == '6' {
        Some(6)
    } else if c == '7' {
        Some(7)
    } else if c == '8' {
        Some(8)
    } else if c == '9' {
        Some(9)
    } else if c == 'a' || c == 'A' {
        Some(10)
    } else if c == 'b' || c == 'B' {
        Some(11)
    } else if c == 'c' || c == 'C' {
        Some(12)
    } else if c == 'd' || c == 'D' {
        Some(13)
    } else if c == 'e' || c == 'E' {
        Some(14)
    } else if c == 'f' || c == 'F' {
        Some(15)
    } else {
        None
    }
}

/// Appends `v` in eight hexadecimal digits.
fn push_hex(out: &mut String, v: u32)
    ensures
        final(out)@ == old(out)@ + hex_field(v as nat, 8),
{
    let ghost before = out@;
    let mut shift: u32 = 8;
    proof {
        assert(before + hex_field((v as nat) / 0x1_0000_0000, 0) =~= before);
    }
    while shift > 0
        invariant
            shift <= 8,
            out@ == before + hex_field(high_part(v as nat, shift as nat), (8 - shift) as nat),
        decreases shift,
    {
        shift -= 1;
        let part = v >> (4 * shift);
        let d = part & 0xF;
        proof {
            lemma_high_part(v, shift);
        }
        push_char(out, hex_char(d));
        proof {
            let w = (8 - shift) as nat;
            let h = high_part(v as nat, shift as nat);
            assert(hex_field(h, w) =~= hex_field(h / 16, (w - 1) as nat).push(hex_digit(h % 16)));
            assert(out@ =~= before + hex_field(h, w));
        }
    }
}

/// `v` without its lowest `shift` hexadecimal digits.
pub open spec fn high_part(v: nat, shift: nat) -> nat
    decreases shift,
{
    if shift == 0 {
        v
    } else {
        high_part(v, (shift - 1) as nat) / 16
    }
}

/// Shifting by four bits drops a hexadecimal digit, and masking with 15
/// keeps the lowest one.
proof fn lemma_high_part(v: u32, shift: u32)
    requires
        shift < 8,
    ensures
        (v >> (4 * shift)) as nat == high_part(v as nat, shift as nat),
        ((v >> (4 * shift)) & 0xF) as nat == high_part(v as nat, shift as nat) % 16,
        high_part(v as nat, (shift + 1) as nat) == high_part(v as nat, shift as nat) / 16,
    decreases shift,
{
    let part = v >> (4 * shift);
    assert(part & 0xF == part % 16) by (bit_vector);
    if shift == 0 {
        assert(v >> 0 == v) by (bit_vector);
    } else {
        lemma_high_part(v, (shift - 1) as u32);
        let prev = v >> (4 * ((shift - 1) as u32));
        assert(v >> (4 * shift) == (v >> (4 * ((shift - 1) as u32))) / 16) by (bit_vector)
            requires
                0 < shift < 8,
        ;
    }
}

/// The file name of a segment.
pub fn segment_file_name(seg_id: SegmentId, visible: bool) -> (r: String)
    ensures
        r@ == file_name(seg_id, visible),
{
    let mut out = String::new();
    assert(out@ =~= Seq::<char>::empty());
    push_hex(&mut out, seg_id.0);
    push_char(&mut out, '.');
    push_hex(&mut out, seg_id.1 as u32);
    if !visible {
        push_char(&mut out, '.');
        push_char(&mut out, 't');
        push_char(&mut out, 'm');
        push_char(&mut out, 'p');
    }
    assert(out@ =~= file_name(seg_id, visible));
    out
}

/// The path of a segment file in the directory `database_path`.
pub fn get_segment_path(database_path: &str, seg_id: SegmentId, visible: bool) -> (r: String)
    ensures
        r@ == database_path@ + seq!['/'] + file_name(seg_id, visible),
{
    let name = segment_file_name(seg_id, visible);
    let mut out = String::new();
    assert(out@ =~= Seq::<char>::empty());
    push_text(&mut out, database_path);
    push_char(&mut out, '/');
    push_text(&mut out, name.as_str());
    assert(out@ =~= database_path@ + seq!['/'] + file_name(seg_id, visible));
    out
}

/// The first position from `from` on that holds a `.`, or the length.
fn find_dot(s: &Vec<char>, from: usize) -> (r: usize)
    requires
        from <= s@.len(),
    ensures
        r == first_dot(s@, from as int),
        from <= r <= s@.len(),
{
    let n = s.len();
    let mut i: usize = from;
    while i < n
        invariant
            from <= i <= n,
            n == s@.len(),
            first_dot(s@, i as int) == first_dot(s@, from as int),
        decreases n - i,
    {
        if s[i] == '.' {
            return i;
        }
        i += 1;
    }
    i
}

/// The number spelled by the first digits is no more than the number
/// spelled by all of them.
pub proof fn lemma_hex_number_prefix(s: Seq<char>, k: int)
    requires
        0 <= k <= s.len(),
    ensures
        hex_number(s.take(k)) <= hex_number(s),
    decreases s.len() - k,
{
    if k == s.len() {
        assert(s.take(k) =~= s);
    } else {
        lemma_hex_number_prefix(s, k + 1);
        assert(s.take(k + 1).drop_last() =~= s.take(k));
    }
}

/// The number that the characters in `from..to` spell in hexadecimal,
/// where they spell one that is at most `max`.
fn parse_hex_chars(s: &Vec<char>, from: usize, to: usize, max: u64) -> (r: Option<u64>)
    requires
        from <= to <= s@.len(),
        max <= 0xFFFF_FFFF,
    ensures
        match parse_hex(s@.subrange(from as int, to as int), max as nat) {
            Some(v) => r == Some(v as u64),
            None => r is None,
        },
{
    let ghost field = s@.subrange(from as int, to as int);
    let ghost digits = digits_of(field);
    let mut i: usize = from;
    if i < to && s[i] == '+' {
        i += 1;
    }
    let first = i;
    proof {
        assert(digits =~= s@.subrange(first as int, to as int));
    }
    if i == to {
        return None;
    }
    let mut acc: u64 = 0;
    proof {
        assert(digits.take(0) =~= Seq::<char>::empty());
    }
    while i < to
        invariant
            first <= i <= to <= s@.len(),
            max <= 0xFFFF_FFFF,
            digits == s@.subrange(first as int, to as int),
            from <= to,
            digits == digits_of(s@.subrange(from as int, to as int)),
            all_hex(digits.take(i - first)),
            acc == hex_number(digits.take(i - first)),
            acc <= max,
        decreases to - i,
    {
        let ghost j = i - first;
        proof {
            assert(digits.take(j + 1).drop_last() =~= digits.take(j));
            assert(digits.take(j + 1).last() == s@[i as int]);
            lemma_hex_number_prefix(digits, j + 1);
        }
        match digit_of(s[i]) {
            None => {
                assert(digit_value(digits[j]) is None);
                return None;
            },
            Some(d) => {
                acc = acc * 16 + d;
                if acc > max {
                    return None;
                }
                proof {
                    let now = digits.take(j + 1);
                    assert forall|m: int| 0 <= m < now.len() implies digit_value(
                        #[trigger] now[m],
                    ) is Some by {
                        if m < j {
                            assert(now[m] == digits.take(j)[m]);
                        }
                    }
                }
            },
        }
        i += 1;
    }
    proof {
        assert(digits.take(to - first) =~= digits);
    }
    Some(acc)
}

/// What a file name says.
pub fn decode_segment_name(name: &Vec<char>) -> (r: Option<(TransactionId, SegmentNum, bool)>)
    ensures
        r == parse_name(name@),
{
    let n = name.len();
    let a = find_dot(name, 0);
    if a >= n {
        return None;
    }
    let b = find_dot(name, a + 1);
    let txn = parse_hex_chars(name, 0, a, 0xFFFF_FFFF);
    let seg = parse_hex_chars(name, a + 1, b, 0xFFFF);
    match (txn, seg) {
        (Some(t), Some(s)) => {
            if b >= n {
                Some((t as u32, s as u16, true))
            } else {
                let c = find_dot(name, b + 1);
                let is_tmp = c - (b + 1) == 3 && name[b + 1] == 't' && name[b + 2] == 'm' && name[b
                    + 3] == 'p';
                proof {
                    let tail = name@.subrange(b + 1, c as int);
                    if is_tmp {
                        assert(tail =~= seq!['t', 'm', 'p']);
                    } else if tail.len() == 3 {
                        assert(tail[0] == name@[b + 1] && tail[1] == name@[b + 2] && tail[2]
                            == name@[b + 3]);
                        assert(seq!['t', 'm', 'p'][0] == 't' && seq!['t', 'm', 'p'][1] == 'm'
                            && seq!['t', 'm', 'p'][2] == 'p');
                    } else {
                        assert(seq!['t', 'm', 'p'].len() == 3);
                    }
                }
                if is_tmp {
                    Some((t as u32, s as u16, false))
                } else {
                    None
                }
            }
        },
        _ => None,
    }
}

/// What the file name of a path says: the transaction, the segment
/// number, and whether the segment is committed.  The file name is what
/// follows the last `/` of the path.
pub fn decode_segment_path(path: &str) -> (r: Option<(TransactionId, SegmentNum, bool)>)
    ensures
        r == parse_path(path@),
{
    let chars = chars_of(path);
    let n = chars.len();
    let mut start: usize = n;
    proof {
        assert(chars@.take(n as int) =~= chars@);
    }
    while start > 0 && chars[start - 1] != '/'
        invariant
            start <= n,
            n == chars@.len(),
            name_start(chars@.take(start as int)) == name_start(chars@),
        decreases start,
    {
        proof {
            assert(chars@.take(start as int).drop_last() =~= chars@.take(start - 1));
        }
        start -= 1;
    }
    proof {
        let head = chars@.take(start as int);
        if start > 0 {
            assert(head.last() == '/');
        }
        assert(name_start(head) == start);
    }
    let mut name: Vec<char> = Vec::new();
    let mut i: usize = start;
    while i < n
        invariant
            start <= i <= n,
            n == chars@.len(),
            name@.len() == i - start,
            forall|j: int| 0 <= j < i - start ==> name@[j] == chars@[start + j],
        decreases n - i,
    {
        name.push(chars[i]);
        i += 1;
    }
    proof {
        assert(name@ =~= chars@.skip(start as int));
    }
    decode_segment_name(&name)
}

} // verus!
