//! The schema-driven point reader: parses a PLY header describing named,
//! counted elements with typed properties, then decodes exactly the declared
//! number of vertex records from the payload, in the declared encoding.
//!
//! The reader is deliberately specialized to the nine-property vertex schema
//! `x y z nx ny nz red green blue`: any vertex property outside it is a hard
//! failure, never a silently dropped field.

use vstd::prelude::*;
use crate::model::{
    Encoding, PointRecord, PropType, PropValue, ReadError, VertexField, field_accepts,
    record_with, zero_record,
};
use crate::scalar::{float_bits_of, parse_float_token};

verus! {

/// The newline byte that ends every header line and every text payload row.
pub open spec fn is_newline(b: u8) -> bool {
    b == 10
}

/// Bytes that separate tokens within a line.
pub open spec fn is_sep(b: u8) -> bool {
    b == 32 || b == 9 || b == 13
}

/// Position of the first newline at or after `pos`, or the end of the input.
pub open spec fn line_end(s: Seq<u8>, pos: int) -> int
    decreases s.len() - pos,
{
    if pos >= s.len() {
        s.len() as int
    } else if is_newline(s[pos]) {
        pos
    } else {
        line_end(s, pos + 1)
    }
}

/// `line_end` stays between its start and the end of the input, lands on a
/// newline unless it reaches the end, and skips no newline.
pub proof fn lemma_line_end(s: Seq<u8>, pos: int)
    requires
        0 <= pos <= s.len(),
    ensures
        pos <= line_end(s, pos),
        line_end(s, pos) <= s.len(),
        line_end(s, pos) < s.len() ==> is_newline(s[line_end(s, pos)]),
        forall|k: int| pos <= k < line_end(s, pos) ==> !is_newline(s[k]),
    decreases s.len() - pos,
{
    if pos < s.len() && !is_newline(s[pos]) {
        lemma_line_end(s, pos + 1);
    }
}

/// End of the content of the line starting at `pos`: its newline, or one
/// byte earlier when the line ends in a carriage return.
pub open spec fn line_content_end(s: Seq<u8>, pos: int) -> int {
    let e = line_end(s, pos);
    if e > pos && s[e - 1] == 13 {
        e - 1
    } else {
        e
    }
}

/// Start of the line after the one starting at `pos`.
pub open spec fn next_line_pos(s: Seq<u8>, pos: int) -> int {
    let e = line_end(s, pos);
    if e < s.len() {
        e + 1
    } else {
        e
    }
}

/// First non-separator at or after `i`, up to `hi`.
pub open spec fn skip_seps(s: Seq<u8>, i: int, hi: int) -> int
    decreases hi - i,
{
    if i >= hi {
        hi
    } else if is_sep(s[i]) {
        skip_seps(s, i + 1, hi)
    } else {
        i
    }
}

/// First separator at or after `i`, up to `hi`.
pub open spec fn token_end(s: Seq<u8>, i: int, hi: int) -> int
    decreases hi - i,
{
    if i >= hi {
        hi
    } else if is_sep(s[i]) {
        i
    } else {
        token_end(s, i + 1, hi)
    }
}

pub proof fn lemma_skip_seps(s: Seq<u8>, i: int, hi: int)
    requires
        i <= hi,
    ensures
        i <= skip_seps(s, i, hi),
        skip_seps(s, i, hi) <= hi,
        skip_seps(s, i, hi) < hi ==> !is_sep(s[skip_seps(s, i, hi)]),
        forall|k: int| i <= k < skip_seps(s, i, hi) ==> is_sep(s[k]),
    decreases hi - i,
{
    if i < hi && is_sep(s[i]) {
        lemma_skip_seps(s, i + 1, hi);
    }
}

pub proof fn lemma_token_end(s: Seq<u8>, i: int, hi: int)
    requires
        i <= hi,
    ensures
        i <= token_end(s, i, hi),
        token_end(s, i, hi) <= hi,
        token_end(s, i, hi) < hi ==> is_sep(s[token_end(s, i, hi)]),
        forall|k: int| i <= k < token_end(s, i, hi) ==> !is_sep(s[k]),
    decreases hi - i,
{
    if i < hi && !is_sep(s[i]) {
        lemma_token_end(s, i + 1, hi);
    }
}

/// The ranges of the whitespace-separated tokens of `s[i..hi)`.
pub open spec fn tokens_in(s: Seq<u8>, i: int, hi: int) -> Seq<(int, int)>
    decreases hi - i,
    via tokens_in_decreases
{
    let j = skip_seps(s, i, hi);
    if j >= hi {
        Seq::empty()
    } else {
        seq![(j, token_end(s, j, hi))] + tokens_in(s, token_end(s, j, hi), hi)
    }
}

#[via_fn]
proof fn tokens_in_decreases(s: Seq<u8>, i: int, hi: int) {
    if i <= hi {
        lemma_skip_seps(s, i, hi);
        let j = skip_seps(s, i, hi);
        if j < hi {
            lemma_token_end(s, j, hi);
            assert(token_end(s, j, hi) > j) by {
                assert(!is_sep(s[j]));
            }
        }
    }
}

/// The bytes of a token range.
pub open spec fn tok(s: Seq<u8>, t: (int, int)) -> Seq<u8> {
    s.subrange(t.0, t.1)
}

/// Decimal digits.
pub open spec fn is_digit(b: u8) -> bool {
    48 <= b && b <= 57
}

pub open spec fn all_digits(t: Seq<u8>) -> bool {
    forall|k: int| 0 <= k < t.len() ==> is_digit(#[trigger] t[k])
}

/// The number a digit string denotes.
pub open spec fn dec_val(t: Seq<u8>) -> int
    decreases t.len(),
{
    if t.len() == 0 {
        0
    } else {
        dec_val(t.drop_last()) * 10 + (t.last() - 48)
    }
}

/// Longer digit prefixes denote no smaller numbers.
pub proof fn lemma_dec_val_next(t: Seq<u8>, i: int)
    requires
        0 <= i < t.len(),
        all_digits(t),
    ensures
        dec_val(t.take(i)) <= dec_val(t.take(i + 1)),
        dec_val(t.take(i)) >= 0,
    decreases i,
{
    if i > 0 {
        lemma_dec_val_next(t, i - 1);
    }
    assert(t.take(i + 1).drop_last() =~= t.take(i));
    assert(dec_val(t.take(i + 1)) == dec_val(t.take(i)) * 10 + (t[i] - 48));
    if i > 0 {
        assert(t.take(i).drop_last() =~= t.take(i - 1));
    }
    assert(dec_val(t.take(i)) >= 0) by {
        if i == 0 {
            assert(t.take(0).len() == 0);
        } else {
            assert(dec_val(t.take(i)) == dec_val(t.take(i - 1)) * 10 + (t[i - 1] - 48));
        }
    }
}

/// Prefix values never exceed the whole value.
pub proof fn lemma_dec_val_prefix(t: Seq<u8>, i: int)
    requires
        0 <= i <= t.len(),
        all_digits(t),
    ensures
        dec_val(t.take(i)) <= dec_val(t),
        dec_val(t) >= 0,
    decreases t.len() - i,
{
    if i < t.len() {
        lemma_dec_val_next(t, i);
        lemma_dec_val_prefix(t, i + 1);
    } else {
        assert(t.take(i) =~= t);
        if t.len() > 0 {
            lemma_dec_val_next(t, t.len() - 1 as int);
            assert(t.take(t.len() as int) =~= t);
        }
    }
}

/// A token that denotes an element count: all digits, fitting a `usize`.
pub open spec fn is_count_token(t: Seq<u8>) -> bool {
    t.len() > 0 && all_digits(t) && dec_val(t) <= usize::MAX
}

} // verus!

verus! {

/// The bytes of `ply`.
pub open spec fn kw_ply() -> Seq<u8> {
    seq![112u8, 108u8, 121u8]
}

/// Whether `s[a..b)` spells `ply`.
fn is_kw_ply(s: &Vec<u8>, a: usize, b: usize) -> (r: bool)
    requires
        a <= b <= s@.len(),
    ensures
        r == (s@.subrange(a as int, b as int) == kw_ply()),
{
    let r = b - a == 3 && s[a] == 112 && s[a + 1] == 108 && s[a + 2] == 121;
    proof {
        let t = s@.subrange(a as int, b as int);
        if r {
            assert(t =~= kw_ply());
        } else if t == kw_ply() {
            assert(t.len() == 3);
            assert(t[0] == kw_ply()[0]);
            assert(t[1] == kw_ply()[1]);
            assert(t[2] == kw_ply()[2]);
            assert(false);
        }
    }
    r
}

/// The bytes of `format`.
pub open spec fn kw_format() -> Seq<u8> {
    seq![102u8, 111u8, 114u8, 109u8, 97u8, 116u8]
}

/// Whether `s[a..b)` spells `format`.
fn is_kw_format(s: &Vec<u8>, a: usize, b: usize) -> (r: bool)
    requires
        a <= b <= s@.len(),
    ensures
        r == (s@.subrange(a as int, b as int) == kw_format()),
{
    let r = b - a == 6 && s[a] == 102 && s[a + 1] == 111 && s[a + 2] == 114 && s[a + 3] == 109 && s[a + 4] == 97 && s[a + 5] == 116;
    proof {
        let t = s@.subrange(a as int, b as int);
        if r {
            assert(t =~= kw_format());
        } else if t == kw_format() {
            assert(t.len() == 6);
            assert(t[0] == kw_format()[0]);
            assert(t[1] == kw_format()[1]);
            assert(t[2] == kw_format()[2]);
            assert(t[3] == kw_format()[3]);
            assert(t[4] == kw_format()[4]);
            assert(t[5] == kw_format()[5]);
            assert(false);
        }
    }
    r
}

/// The bytes of `comment`.
pub open spec fn kw_comment() -> Seq<u8> {
    seq![99u8, 111u8, 109u8, 109u8, 101u8, 110u8, 116u8]
}

/// Whether `s[a..b)` spells `comment`.
fn is_kw_comment(s: &Vec<u8>, a: usize, b: usize) -> (r: bool)
    requires
        a <= b <= s@.len(),
    ensures
        r == (s@.subrange(a as int, b as int) == kw_comment()),
{
    let r = b - a == 7 && s[a] == 99 && s[a + 1] == 111 && s[a + 2] == 109 && s[a + 3] == 109 && s[a + 4] == 101 && s[a + 5] == 110 && s[a + 6] == 116;
    proof {
        let t = s@.subrange(a as int, b as int);
        if r {
            assert(t =~= kw_comment());
        } else if t == kw_comment() {
            assert(t.len() == 7);
            assert(t[0] == kw_comment()[0]);
            assert(t[1] == kw_comment()[1]);
            assert(t[2] == kw_comment()[2]);
            assert(t[3] == kw_comment()[3]);
            assert(t[4] == kw_comment()[4]);
            assert(t[5] == kw_comment()[5]);
            assert(t[6] == kw_comment()[6]);
            assert(false);
        }
    }
    r
}

/// The bytes of `obj_info`.
pub open spec fn kw_obj_info() -> Seq<u8> {
    seq![111u8, 98u8, 106u8, 95u8, 105u8, 110u8, 102u8, 111u8]
}

/// Whether `s[a..b)` spells `obj_info`.
fn is_kw_obj_info(s: &Vec<u8>, a: usize, b: usize) -> (r: bool)
    requires
        a <= b <= s@.len(),
    ensures
        r == (s@.subrange(a as int, b as int) == kw_obj_info()),
{
    let r = b - a == 8 && s[a] == 111 && s[a + 1] == 98 && s[a + 2] == 106 && s[a + 3] == 95 && s[a + 4] == 105 && s[a + 5] == 110 && s[a + 6] == 102 && s[a + 7] == 111;
    proof {
        let t = s@.subrange(a as int, b as int);
        if r {
            assert(t =~= kw_obj_info());
        } else if t == kw_obj_info() {
            assert(t.len() == 8);
            assert(t[0] == kw_obj_info()[0]);
            assert(t[1] == kw_obj_info()[1]);
            assert(t[2] == kw_obj_info()[2]);
            assert(t[3] == kw_obj_info()[3]);
            assert(t[4] == kw_obj_info()[4]);
            assert(t[5] == kw_obj_info()[5]);
            assert(t[6] == kw_obj_info()[6]);
            assert(t[7] == kw_obj_info()[7]);
            assert(false);
        }
    }
    r
}

/// The bytes of `element`.
pub open spec fn kw_element() -> Seq<u8> {
    seq![101u8, 108u8, 101u8, 109u8, 101u8, 110u8, 116u8]
}

/// Whether `s[a..b)` spells `element`.
fn is_kw_element(s: &Vec<u8>, a: usize, b: usize) -> (r: bool)
    requires
        a <= b <= s@.len(),
    ensures
        r == (s@.subrange(a as int, b as int) == kw_element()),
{
    let r = b - a == 7 && s[a] == 101 && s[a + 1] == 108 && s[a + 2] == 101 && s[a + 3] == 109 && s[a + 4] == 101 && s[a + 5] == 110 && s[a + 6] == 116;
    proof {
        let t = s@.subrange(a as int, b as int);
        if r {
            assert(t =~= kw_element());
        } else if t == kw_element() {
            assert(t.len() == 7);
            assert(t[0] == kw_element()[0]);
            assert(t[1] == kw_element()[1]);
            assert(t[2] == kw_element()[2]);
            assert(t[3] == kw_element()[3]);
            assert(t[4] == kw_element()[4]);
            assert(t[5] == kw_element()[5]);
            assert(t[6] == kw_element()[6]);
            assert(false);
        }
    }
    r
}

/// The bytes of `property`.
pub open spec fn kw_property() -> Seq<u8> {
    seq![112u8, 114u8, 111u8, 112u8, 101u8, 114u8, 116u8, 121u8]
}

/// Whether `s[a..b)` spells `property`.
fn is_kw_property(s: &Vec<u8>, a: usize, b: usize) -> (r: bool)
    requires
        a <= b <= s@.len(),
    ensures
        r == (s@.subrange(a as int, b as int) == kw_property()),
{
    let r = b - a == 8 && s[a] == 112 && s[a + 1] == 114 && s[a + 2] == 111 && s[a + 3] == 112 && s[a + 4] == 101 && s[a + 5] == 114 && s[a + 6] == 116 && s[a + 7] == 121;
    proof {
        let t = s@.subrange(a as int, b as int);
        if r {
            assert(t =~= kw_property());
        } else if t == kw_property() {
            assert(t.len() == 8);
            assert(t[0] == kw_property()[0]);
            assert(t[1] == kw_property()[1]);
            assert(t[2] == kw_property()[2]);
            assert(t[3] == kw_property()[3]);
            assert(t[4] == kw_property()[4]);
            assert(t[5] == kw_property()[5]);
            assert(t[6] == kw_property()[6]);
            assert(t[7] == kw_property()[7]);
            assert(false);
        }
    }
    r
}

/// The bytes of `end_header`.
pub open spec fn kw_end_header() -> Seq<u8> {
    seq![101u8, 110u8, 100u8, 95u8, 104u8, 101u8, 97u8, 100u8, 101u8, 114u8]
}

/// Whether `s[a..b)` spells `end_header`.
fn is_kw_end_header(s: &Vec<u8>, a: usize, b: usize) -> (r: bool)
    requires
        a <= b <= s@.len(),
    ensures
        r == (s@.subrange(a as int, b as int) == kw_end_header()),
{
    let r = b - a == 10 && s[a] == 101 && s[a + 1] == 110 && s[a + 2] == 100 && s[a + 3] == 95 && s[a + 4] == 104 && s[a + 5] == 101 && s[a + 6] == 97 && s[a + 7] == 100 && s[a + 8] == 101 && s[a + 9] == 114;
    proof {
        let t = s@.subrange(a as int, b as int);
        if r {
            assert(t =~= kw_end_header());
        } else if t == kw_end_header() {
            assert(t.len() == 10);
            assert(t[0] == kw_end_header()[0]);
            assert(t[1] == kw_end_header()[1]);
            assert(t[2] == kw_end_header()[2]);
            assert(t[3] == kw_end_header()[3]);
            assert(t[4] == kw_end_header()[4]);
            assert(t[5] == kw_end_header()[5]);
            assert(t[6] == kw_end_header()[6]);
            assert(t[7] == kw_end_header()[7]);
            assert(t[8] == kw_end_header()[8]);
            assert(t[9] == kw_end_header()[9]);
            assert(false);
        }
    }
    r
}

/// The bytes of `ascii`.
pub open spec fn kw_ascii() -> Seq<u8> {
    seq![97u8, 115u8, 99u8, 105u8, 105u8]
}

/// Whether `s[a..b)` spells `ascii`.
fn is_kw_ascii(s: &Vec<u8>, a: usize, b: usize) -> (r: bool)
    requires
        a <= b <= s@.len(),
    ensures
        r == (s@.subrange(a as int, b as int) == kw_ascii()),
{
    let r = b - a == 5 && s[a] == 97 && s[a + 1] == 115 && s[a + 2] == 99 && s[a + 3] == 105 && s[a + 4] == 105;
    proof {
        let t = s@.subrange(a as int, b as int);
        if r {
            assert(t =~= kw_ascii());
        } else if t == kw_ascii() {
            assert(t.len() == 5);
            assert(t[0] == kw_ascii()[0]);
            assert(t[1] == kw_ascii()[1]);
            assert(t[2] == kw_ascii()[2]);
            assert(t[3] == kw_ascii()[3]);
            assert(t[4] == kw_ascii()[4]);
            assert(false);
        }
    }
    r
}

/// The bytes of `binary_little_endian`.
pub open spec fn kw_binary_little_endian() -> Seq<u8> {
    seq![98u8, 105u8, 110u8, 97u8, 114u8, 121u8, 95u8, 108u8, 105u8, 116u8, 116u8, 108u8, 101u8, 95u8, 101u8, 110u8, 100u8, 105u8, 97u8, 110u8]
}

/// Whether `s[a..b)` spells `binary_little_endian`.
fn is_kw_binary_little_endian(s: &Vec<u8>, a: usize, b: usize) -> (r: bool)
    requires
        a <= b <= s@.len(),
    ensures
        r == (s@.subrange(a as int, b as int) == kw_binary_little_endian()),
{
    let r = b - a == 20 && s[a] == 98 && s[a + 1] == 105 && s[a + 2] == 110 && s[a + 3] == 97 && s[a + 4] == 114 && s[a + 5] == 121 && s[a + 6] == 95 && s[a + 7] == 108 && s[a + 8] == 105 && s[a + 9] == 116 && s[a + 10] == 116 && s[a + 11] == 108 && s[a + 12] == 101 && s[a + 13] == 95 && s[a + 14] == 101 && s[a + 15] == 110 && s[a + 16] == 100 && s[a + 17] == 105 && s[a + 18] == 97 && s[a + 19] == 110;
    proof {
        let t = s@.subrange(a as int, b as int);
        if r {
            assert(t =~= kw_binary_little_endian());
        } else if t == kw_binary_little_endian() {
            assert(t.len() == 20);
            assert(t[0] == kw_binary_little_endian()[0]);
            assert(t[1] == kw_binary_little_endian()[1]);
            assert(t[2] == kw_binary_little_endian()[2]);
            assert(t[3] == kw_binary_little_endian()[3]);
            assert(t[4] == kw_binary_little_endian()[4]);
            assert(t[5] == kw_binary_little_endian()[5]);
            assert(t[6] == kw_binary_little_endian()[6]);
            assert(t[7] == kw_binary_little_endian()[7]);
            assert(t[8] == kw_binary_little_endian()[8]);
            assert(t[9] == kw_binary_little_endian()[9]);
            assert(t[10] == kw_binary_little_endian()[10]);
            assert(t[11] == kw_binary_little_endian()[11]);
            assert(t[12] == kw_binary_little_endian()[12]);
            assert(t[13] == kw_binary_little_endian()[13]);
            assert(t[14] == kw_binary_little_endian()[14]);
            assert(t[15] == kw_binary_little_endian()[15]);
            assert(t[16] == kw_binary_little_endian()[16]);
            assert(t[17] == kw_binary_little_endian()[17]);
            assert(t[18] == kw_binary_little_endian()[18]);
            assert(t[19] == kw_binary_little_endian()[19]);
            assert(false);
        }
    }
    r
}

/// The bytes of `binary_big_endian`.
pub open spec fn kw_binary_big_endian() -> Seq<u8> {
    seq![98u8, 105u8, 110u8, 97u8, 114u8, 121u8, 95u8, 98u8, 105u8, 103u8, 95u8, 101u8, 110u8, 100u8, 105u8, 97u8, 110u8]
}

/// Whether `s[a..b)` spells `binary_big_endian`.
fn is_kw_binary_big_endian(s: &Vec<u8>, a: usize, b: usize) -> (r: bool)
    requires
        a <= b <= s@.len(),
    ensures
        r == (s@.subrange(a as int, b as int) == kw_binary_big_endian()),
{
    let r = b - a == 17 && s[a] == 98 && s[a + 1] == 105 && s[a + 2] == 110 && s[a + 3] == 97 && s[a + 4] == 114 && s[a + 5] == 121 && s[a + 6] == 95 && s[a + 7] == 98 && s[a + 8] == 105 && s[a + 9] == 103 && s[a + 10] == 95 && s[a + 11] == 101 && s[a + 12] == 110 && s[a + 13] == 100 && s[a + 14] == 105 && s[a + 15] == 97 && s[a + 16] == 110;
    proof {
        let t = s@.subrange(a as int, b as int);
        if r {
            assert(t =~= kw_binary_big_endian());
        } else if t == kw_binary_big_endian() {
            assert(t.len() == 17);
            assert(t[0] == kw_binary_big_endian()[0]);
            assert(t[1] == kw_binary_big_endian()[1]);
            assert(t[2] == kw_binary_big_endian()[2]);
            assert(t[3] == kw_binary_big_endian()[3]);
            assert(t[4] == kw_binary_big_endian()[4]);
            assert(t[5] == kw_binary_big_endian()[5]);
            assert(t[6] == kw_binary_big_endian()[6]);
            assert(t[7] == kw_binary_big_endian()[7]);
            assert(t[8] == kw_binary_big_endian()[8]);
            assert(t[9] == kw_binary_big_endian()[9]);
            assert(t[10] == kw_binary_big_endian()[10]);
            assert(t[11] == kw_binary_big_endian()[11]);
            assert(t[12] == kw_binary_big_endian()[12]);
            assert(t[13] == kw_binary_big_endian()[13]);
            assert(t[14] == kw_binary_big_endian()[14]);
            assert(t[15] == kw_binary_big_endian()[15]);
            assert(t[16] == kw_binary_big_endian()[16]);
            assert(false);
        }
    }
    r
}

/// The bytes of `1.0`.
pub open spec fn kw_version_one() -> Seq<u8> {
    seq![49u8, 46u8, 48u8]
}

/// Whether `s[a..b)` spells `1.0`.
fn is_kw_version_one(s: &Vec<u8>, a: usize, b: usize) -> (r: bool)
    requires
        a <= b <= s@.len(),
    ensures
        r == (s@.subrange(a as int, b as int) == kw_version_one()),
{
    let r = b - a == 3 && s[a] == 49 && s[a + 1] == 46 && s[a + 2] == 48;
    proof {
        let t = s@.subrange(a as int, b as int);
        if r {
            assert(t =~= kw_version_one());
        } else if t == kw_version_one() {
            assert(t.len() == 3);
            assert(t[0] == kw_version_one()[0]);
            assert(t[1] == kw_version_one()[1]);
            assert(t[2] == kw_version_one()[2]);
            assert(false);
        }
    }
    r
}

/// The bytes of `vertex`.
pub open spec fn kw_vertex() -> Seq<u8> {
    seq![118u8, 101u8, 114u8, 116u8, 101u8, 120u8]
}

/// Whether `s[a..b)` spells `vertex`.
fn is_kw_vertex(s: &Vec<u8>, a: usize, b: usize) -> (r: bool)
    requires
        a <= b <= s@.len(),
    ensures
        r == (s@.subrange(a as int, b as int) == kw_vertex()),
{
    let r = b - a == 6 && s[a] == 118 && s[a + 1] == 101 && s[a + 2] == 114 && s[a + 3] == 116 && s[a + 4] == 101 && s[a + 5] == 120;
    proof {
        let t = s@.subrange(a as int, b as int);
        if r {
            assert(t =~= kw_vertex());
        } else if t == kw_vertex() {
            assert(t.len() == 6);
            assert(t[0] == kw_vertex()[0]);
            assert(t[1] == kw_vertex()[1]);
            assert(t[2] == kw_vertex()[2]);
            assert(t[3] == kw_vertex()[3]);
            assert(t[4] == kw_vertex()[4]);
            assert(t[5] == kw_vertex()[5]);
            assert(false);
        }
    }
    r
}

/// The bytes of `x`.
pub open spec fn kw_x() -> Seq<u8> {
    seq![120u8]
}

/// Whether `s[a..b)` spells `x`.
fn is_kw_x(s: &Vec<u8>, a: usize, b: usize) -> (r: bool)
    requires
        a <= b <= s@.len(),
    ensures
        r == (s@.subrange(a as int, b as int) == kw_x()),
{
    let r = b - a == 1 && s[a] == 120;
    proof {
        let t = s@.subrange(a as int, b as int);
        if r {
            assert(t =~= kw_x());
        } else if t == kw_x() {
            assert(t.len() == 1);
            assert(t[0] == kw_x()[0]);
            assert(false);
        }
    }
    r
}

/// The bytes of `y`.
pub open spec fn kw_y() -> Seq<u8> {
    seq![121u8]
}

/// Whether `s[a..b)` spells `y`.
fn is_kw_y(s: &Vec<u8>, a: usize, b: usize) -> (r: bool)
    requires
        a <= b <= s@.len(),
    ensures
        r == (s@.subrange(a as int, b as int) == kw_y()),
{
    let r = b - a == 1 && s[a] == 121;
    proof {
        let t = s@.subrange(a as int, b as int);
        if r {
            assert(t =~= kw_y());
        } else if t == kw_y() {
            assert(t.len() == 1);
            assert(t[0] == kw_y()[0]);
            assert(false);
        }
    }
    r
}

/// The bytes of `z`.
pub open spec fn kw_z() -> Seq<u8> {
    seq![122u8]
}

/// Whether `s[a..b)` spells `z`.
fn is_kw_z(s: &Vec<u8>, a: usize, b: usize) -> (r: bool)
    requires
        a <= b <= s@.len(),
    ensures
        r == (s@.subrange(a as int, b as int) == kw_z()),
{
    let r = b - a == 1 && s[a] == 122;
    proof {
        let t = s@.subrange(a as int, b as int);
        if r {
            assert(t =~= kw_z());
        } else if t == kw_z() {
            assert(t.len() == 1);
            assert(t[0] == kw_z()[0]);
            assert(false);
        }
    }
    r
}

/// The bytes of `nx`.
pub open spec fn kw_nx() -> Seq<u8> {
    seq![110u8, 120u8]
}

/// Whether `s[a..b)` spells `nx`.
fn is_kw_nx(s: &Vec<u8>, a: usize, b: usize) -> (r: bool)
    requires
        a <= b <= s@.len(),
    ensures
        r == (s@.subrange(a as int, b as int) == kw_nx()),
{
    let r = b - a == 2 && s[a] == 110 && s[a + 1] == 120;
    proof {
        let t = s@.subrange(a as int, b as int);
        if r {
            assert(t =~= kw_nx());
        } else if t == kw_nx() {
            assert(t.len() == 2);
            assert(t[0] == kw_nx()[0]);
            assert(t[1] == kw_nx()[1]);
            assert(false);
        }
    }
    r
}

/// The bytes of `ny`.
pub open spec fn kw_ny() -> Seq<u8> {
    seq![110u8, 121u8]
}

/// Whether `s[a..b)` spells `ny`.
fn is_kw_ny(s: &Vec<u8>, a: usize, b: usize) -> (r: bool)
    requires
        a <= b <= s@.len(),
    ensures
        r == (s@.subrange(a as int, b as int) == kw_ny()),
{
    let r = b - a == 2 && s[a] == 110 && s[a + 1] == 121;
    proof {
        let t = s@.subrange(a as int, b as int);
        if r {
            assert(t =~= kw_ny());
        } else if t == kw_ny() {
            assert(t.len() == 2);
            assert(t[0] == kw_ny()[0]);
            assert(t[1] == kw_ny()[1]);
            assert(false);
        }
    }
    r
}

/// The bytes of `nz`.
pub open spec fn kw_nz() -> Seq<u8> {
    seq![110u8, 122u8]
}

/// Whether `s[a..b)` spells `nz`.
fn is_kw_nz(s: &Vec<u8>, a: usize, b: usize) -> (r: bool)
    requires
        a <= b <= s@.len(),
    ensures
        r == (s@.subrange(a as int, b as int) == kw_nz()),
{
    let r = b - a == 2 && s[a] == 110 && s[a + 1] == 122;
    proof {
        let t = s@.subrange(a as int, b as int);
        if r {
            assert(t =~= kw_nz());
        } else if t == kw_nz() {
            assert(t.len() == 2);
            assert(t[0] == kw_nz()[0]);
            assert(t[1] == kw_nz()[1]);
            assert(false);
        }
    }
    r
}

/// The bytes of `red`.
pub open spec fn kw_red() -> Seq<u8> {
    seq![114u8, 101u8, 100u8]
}

/// Whether `s[a..b)` spells `red`.
fn is_kw_red(s: &Vec<u8>, a: usize, b: usize) -> (r: bool)
    requires
        a <= b <= s@.len(),
    ensures
        r == (s@.subrange(a as int, b as int) == kw_red()),
{
    let r = b - a == 3 && s[a] == 114 && s[a + 1] == 101 && s[a + 2] == 100;
    proof {
        let t = s@.subrange(a as int, b as int);
        if r {
            assert(t =~= kw_red());
        } else if t == kw_red() {
            assert(t.len() == 3);
            assert(t[0] == kw_red()[0]);
            assert(t[1] == kw_red()[1]);
            assert(t[2] == kw_red()[2]);
            assert(false);
        }
    }
    r
}

/// The bytes of `green`.
pub open spec fn kw_green() -> Seq<u8> {
    seq![103u8, 114u8, 101u8, 101u8, 110u8]
}

/// Whether `s[a..b)` spells `green`.
fn is_kw_green(s: &Vec<u8>, a: usize, b: usize) -> (r: bool)
    requires
        a <= b <= s@.len(),
    ensures
        r == (s@.subrange(a as int, b as int) == kw_green()),
{
    let r = b - a == 5 && s[a] == 103 && s[a + 1] == 114 && s[a + 2] == 101 && s[a + 3] == 101 && s[a + 4] == 110;
    proof {
        let t = s@.subrange(a as int, b as int);
        if r {
            assert(t =~= kw_green());
        } else if t == kw_green() {
            assert(t.len() == 5);
            assert(t[0] == kw_green()[0]);
            assert(t[1] == kw_green()[1]);
            assert(t[2] == kw_green()[2]);
            assert(t[3] == kw_green()[3]);
            assert(t[4] == kw_green()[4]);
            assert(false);
        }
    }
    r
}

/// The bytes of `blue`.
pub open spec fn kw_blue() -> Seq<u8> {
    seq![98u8, 108u8, 117u8, 101u8]
}

/// Whether `s[a..b)` spells `blue`.
fn is_kw_blue(s: &Vec<u8>, a: usize, b: usize) -> (r: bool)
    requires
        a <= b <= s@.len(),
    ensures
        r == (s@.subrange(a as int, b as int) == kw_blue()),
{
    let r = b - a == 4 && s[a] == 98 && s[a + 1] == 108 && s[a + 2] == 117 && s[a + 3] == 101;
    proof {
        let t = s@.subrange(a as int, b as int);
        if r {
            assert(t =~= kw_blue());
        } else if t == kw_blue() {
            assert(t.len() == 4);
            assert(t[0] == kw_blue()[0]);
            assert(t[1] == kw_blue()[1]);
            assert(t[2] == kw_blue()[2]);
            assert(t[3] == kw_blue()[3]);
            assert(false);
        }
    }
    r
}

/// The bytes of `char`.
pub open spec fn kw_ty_char() -> Seq<u8> {
    seq![99u8, 104u8, 97u8, 114u8]
}

/// Whether `s[a..b)` spells `char`.
fn is_kw_ty_char(s: &Vec<u8>, a: usize, b: usize) -> (r: bool)
    requires
        a <= b <= s@.len(),
    ensures
        r == (s@.subrange(a as int, b as int) == kw_ty_char()),
{
    let r = b - a == 4 && s[a] == 99 && s[a + 1] == 104 && s[a + 2] == 97 && s[a + 3] == 114;
    proof {
        let t = s@.subrange(a as int, b as int);
        if r {
            assert(t =~= kw_ty_char());
        } else if t == kw_ty_char() {
            assert(t.len() == 4);
            assert(t[0] == kw_ty_char()[0]);
            assert(t[1] == kw_ty_char()[1]);
            assert(t[2] == kw_ty_char()[2]);
            assert(t[3] == kw_ty_char()[3]);
            assert(false);
        }
    }
    r
}

/// The bytes of `uchar`.
pub open spec fn kw_ty_uchar() -> Seq<u8> {
    seq![117u8, 99u8, 104u8, 97u8, 114u8]
}

/// Whether `s[a..b)` spells `uchar`.
fn is_kw_ty_uchar(s: &Vec<u8>, a: usize, b: usize) -> (r: bool)
    requires
        a <= b <= s@.len(),
    ensures
        r == (s@.subrange(a as int, b as int) == kw_ty_uchar()),
{
    let r = b - a == 5 && s[a] == 117 && s[a + 1] == 99 && s[a + 2] == 104 && s[a + 3] == 97 && s[a + 4] == 114;
    proof {
        let t = s@.subrange(a as int, b as int);
        if r {
            assert(t =~= kw_ty_uchar());
        } else if t == kw_ty_uchar() {
            assert(t.len() == 5);
            assert(t[0] == kw_ty_uchar()[0]);
            assert(t[1] == kw_ty_uchar()[1]);
            assert(t[2] == kw_ty_uchar()[2]);
            assert(t[3] == kw_ty_uchar()[3]);
            assert(t[4] == kw_ty_uchar()[4]);
            assert(false);
        }
    }
    r
}

/// The bytes of `short`.
pub open spec fn kw_ty_short() -> Seq<u8> {
    seq![115u8, 104u8, 111u8, 114u8, 116u8]
}

/// Whether `s[a..b)` spells `short`.
fn is_kw_ty_short(s: &Vec<u8>, a: usize, b: usize) -> (r: bool)
    requires
        a <= b <= s@.len(),
    ensures
        r == (s@.subrange(a as int, b as int) == kw_ty_short()),
{
    let r = b - a == 5 && s[a] == 115 && s[a + 1] == 104 && s[a + 2] == 111 && s[a + 3] == 114 && s[a + 4] == 116;
    proof {
        let t = s@.subrange(a as int, b as int);
        if r {
            assert(t =~= kw_ty_short());
        } else if t == kw_ty_short() {
            assert(t.len() == 5);
            assert(t[0] == kw_ty_short()[0]);
            assert(t[1] == kw_ty_short()[1]);
            assert(t[2] == kw_ty_short()[2]);
            assert(t[3] == kw_ty_short()[3]);
            assert(t[4] == kw_ty_short()[4]);
            assert(false);
        }
    }
    r
}

/// The bytes of `ushort`.
pub open spec fn kw_ty_ushort() -> Seq<u8> {
    seq![117u8, 115u8, 104u8, 111u8, 114u8, 116u8]
}

/// Whether `s[a..b)` spells `ushort`.
fn is_kw_ty_ushort(s: &Vec<u8>, a: usize, b: usize) -> (r: bool)
    requires
        a <= b <= s@.len(),
    ensures
        r == (s@.subrange(a as int, b as int) == kw_ty_ushort()),
{
    let r = b - a == 6 && s[a] == 117 && s[a + 1] == 115 && s[a + 2] == 104 && s[a + 3] == 111 && s[a + 4] == 114 && s[a + 5] == 116;
    proof {
        let t = s@.subrange(a as int, b as int);
        if r {
            assert(t =~= kw_ty_ushort());
        } else if t == kw_ty_ushort() {
            assert(t.len() == 6);
            assert(t[0] == kw_ty_ushort()[0]);
            assert(t[1] == kw_ty_ushort()[1]);
            assert(t[2] == kw_ty_ushort()[2]);
            assert(t[3] == kw_ty_ushort()[3]);
            assert(t[4] == kw_ty_ushort()[4]);
            assert(t[5] == kw_ty_ushort()[5]);
            assert(false);
        }
    }
    r
}

/// The bytes of `int`.
pub open spec fn kw_ty_int() -> Seq<u8> {
    seq![105u8, 110u8, 116u8]
}

/// Whether `s[a..b)` spells `int`.
fn is_kw_ty_int(s: &Vec<u8>, a: usize, b: usize) -> (r: bool)
    requires
        a <= b <= s@.len(),
    ensures
        r == (s@.subrange(a as int, b as int) == kw_ty_int()),
{
    let r = b - a == 3 && s[a] == 105 && s[a + 1] == 110 && s[a + 2] == 116;
    proof {
        let t = s@.subrange(a as int, b as int);
        if r {
            assert(t =~= kw_ty_int());
        } else if t == kw_ty_int() {
            assert(t.len() == 3);
            assert(t[0] == kw_ty_int()[0]);
            assert(t[1] == kw_ty_int()[1]);
            assert(t[2] == kw_ty_int()[2]);
            assert(false);
        }
    }
    r
}

/// The bytes of `uint`.
pub open spec fn kw_ty_uint() -> Seq<u8> {
    seq![117u8, 105u8, 110u8, 116u8]
}

/// Whether `s[a..b)` spells `uint`.
fn is_kw_ty_uint(s: &Vec<u8>, a: usize, b: usize) -> (r: bool)
    requires
        a <= b <= s@.len(),
    ensures
        r == (s@.subrange(a as int, b as int) == kw_ty_uint()),
{
    let r = b - a == 4 && s[a] == 117 && s[a + 1] == 105 && s[a + 2] == 110 && s[a + 3] == 116;
    proof {
        let t = s@.subrange(a as int, b as int);
        if r {
            assert(t =~= kw_ty_uint());
        } else if t == kw_ty_uint() {
            assert(t.len() == 4);
            assert(t[0] == kw_ty_uint()[0]);
            assert(t[1] == kw_ty_uint()[1]);
            assert(t[2] == kw_ty_uint()[2]);
            assert(t[3] == kw_ty_uint()[3]);
            assert(false);
        }
    }
    r
}

/// The bytes of `float`.
pub open spec fn kw_ty_float() -> Seq<u8> {
    seq![102u8, 108u8, 111u8, 97u8, 116u8]
}

/// Whether `s[a..b)` spells `float`.
fn is_kw_ty_float(s: &Vec<u8>, a: usize, b: usize) -> (r: bool)
    requires
        a <= b <= s@.len(),
    ensures
        r == (s@.subrange(a as int, b as int) == kw_ty_float()),
{
    let r = b - a == 5 && s[a] == 102 && s[a + 1] == 108 && s[a + 2] == 111 && s[a + 3] == 97 && s[a + 4] == 116;
    proof {
        let t = s@.subrange(a as int, b as int);
        if r {
            assert(t =~= kw_ty_float());
        } else if t == kw_ty_float() {
            assert(t.len() == 5);
            assert(t[0] == kw_ty_float()[0]);
            assert(t[1] == kw_ty_float()[1]);
            assert(t[2] == kw_ty_float()[2]);
            assert(t[3] == kw_ty_float()[3]);
            assert(t[4] == kw_ty_float()[4]);
            assert(false);
        }
    }
    r
}

/// The bytes of `double`.
pub open spec fn kw_ty_double() -> Seq<u8> {
    seq![100u8, 111u8, 117u8, 98u8, 108u8, 101u8]
}

/// Whether `s[a..b)` spells `double`.
fn is_kw_ty_double(s: &Vec<u8>, a: usize, b: usize) -> (r: bool)
    requires
        a <= b <= s@.len(),
    ensures
        r == (s@.subrange(a as int, b as int) == kw_ty_double()),
{
    let r = b - a == 6 && s[a] == 100 && s[a + 1] == 111 && s[a + 2] == 117 && s[a + 3] == 98 && s[a + 4] == 108 && s[a + 5] == 101;
    proof {
        let t = s@.subrange(a as int, b as int);
        if r {
            assert(t =~= kw_ty_double());
        } else if t == kw_ty_double() {
            assert(t.len() == 6);
            assert(t[0] == kw_ty_double()[0]);
            assert(t[1] == kw_ty_double()[1]);
            assert(t[2] == kw_ty_double()[2]);
            assert(t[3] == kw_ty_double()[3]);
            assert(t[4] == kw_ty_double()[4]);
            assert(t[5] == kw_ty_double()[5]);
            assert(false);
        }
    }
    r
}

} // verus!

verus! {

/// The property type a type token denotes, if any.
pub open spec fn prop_type_of(t: Seq<u8>) -> Option<PropType> {
    if t == kw_ty_char() {
        Some(PropType::Int8)
    } else if t == kw_ty_uchar() {
        Some(PropType::UInt8)
    } else if t == kw_ty_short() {
        Some(PropType::Int16)
    } else if t == kw_ty_ushort() {
        Some(PropType::UInt16)
    } else if t == kw_ty_int() {
        Some(PropType::Int32)
    } else if t == kw_ty_uint() {
        Some(PropType::UInt32)
    } else if t == kw_ty_float() {
        Some(PropType::Float32)
    } else if t == kw_ty_double() {
        Some(PropType::Float64)
    } else {
        None
    }
}

/// The fixed vertex schema: the record field a property name and declared
/// type land in, or nothing for any other combination.
pub open spec fn field_of(name: Seq<u8>, ty: PropType) -> Option<VertexField> {
    if ty == PropType::Float32 {
        if name == kw_x() {
            Some(VertexField::X)
        } else if name == kw_y() {
            Some(VertexField::Y)
        } else if name == kw_z() {
            Some(VertexField::Z)
        } else if name == kw_nx() {
            Some(VertexField::Nx)
        } else if name == kw_ny() {
            Some(VertexField::Ny)
        } else if name == kw_nz() {
            Some(VertexField::Nz)
        } else {
            None
        }
    } else if ty == PropType::UInt8 {
        if name == kw_red() {
            Some(VertexField::Red)
        } else if name == kw_green() {
            Some(VertexField::Green)
        } else if name == kw_blue() {
            Some(VertexField::Blue)
        } else {
            None
        }
    } else {
        None
    }
}

/// `prop_type_of`, on a token range.
fn parse_prop_type(s: &Vec<u8>, a: usize, b: usize) -> (r: Option<PropType>)
    requires
        a <= b <= s@.len(),
    ensures
        r == prop_type_of(s@.subrange(a as int, b as int)),
{
    if is_kw_ty_char(s, a, b) {
        Some(PropType::Int8)
    } else if is_kw_ty_uchar(s, a, b) {
        Some(PropType::UInt8)
    } else if is_kw_ty_short(s, a, b) {
        Some(PropType::Int16)
    } else if is_kw_ty_ushort(s, a, b) {
        Some(PropType::UInt16)
    } else if is_kw_ty_int(s, a, b) {
        Some(PropType::Int32)
    } else if is_kw_ty_uint(s, a, b) {
        Some(PropType::UInt32)
    } else if is_kw_ty_float(s, a, b) {
        Some(PropType::Float32)
    } else if is_kw_ty_double(s, a, b) {
        Some(PropType::Float64)
    } else {
        None
    }
}

/// `field_of`, on a name range and a declared type.
fn lookup_field(s: &Vec<u8>, a: usize, b: usize, ty: PropType) -> (r: Option<VertexField>)
    requires
        a <= b <= s@.len(),
    ensures
        r == field_of(s@.subrange(a as int, b as int), ty),
{
    match ty {
        PropType::Float32 => {
            if is_kw_x(s, a, b) {
                Some(VertexField::X)
            } else if is_kw_y(s, a, b) {
                Some(VertexField::Y)
            } else if is_kw_z(s, a, b) {
                Some(VertexField::Z)
            } else if is_kw_nx(s, a, b) {
                Some(VertexField::Nx)
            } else if is_kw_ny(s, a, b) {
                Some(VertexField::Ny)
            } else if is_kw_nz(s, a, b) {
                Some(VertexField::Nz)
            } else {
                None
            }
        },
        PropType::UInt8 => {
            if is_kw_red(s, a, b) {
                Some(VertexField::Red)
            } else if is_kw_green(s, a, b) {
                Some(VertexField::Green)
            } else if is_kw_blue(s, a, b) {
                Some(VertexField::Blue)
            } else {
                None
            }
        },
        _ => None,
    }
}

/// Parse a digit range as a number that must fit a `usize`.
fn parse_count(s: &Vec<u8>, a: usize, b: usize) -> (r: Option<usize>)
    requires
        a <= b <= s@.len(),
    ensures
        r is Some <==> is_count_token(s@.subrange(a as int, b as int)),
        r matches Some(v) ==> v as int == dec_val(s@.subrange(a as int, b as int)),
{
    let ghost t = s@.subrange(a as int, b as int);
    if a == b {
        return None;
    }
    let mut v: usize = 0;
    let mut i: usize = a;
    while i < b
        invariant
            a <= i <= b <= s@.len(),
            t == s@.subrange(a as int, b as int),
            t.len() == b - a,
            all_digits(t.take(i - a)),
            v as int == dec_val(t.take(i - a)),
        decreases b - i,
    {
        let c = s[i];
        if c < 48 || c > 57 {
            proof {
                assert(t[i - a] == c);
                assert(!all_digits(t));
            }
            return None;
        }
        let d = (c - 48) as usize;
        if v > (usize::MAX - d) / 10 {
            proof {
                assert(t[i - a] == c);
                assert(t.take(i - a + 1).drop_last() =~= t.take(i - a));
                assert(dec_val(t.take(i - a + 1)) == dec_val(t.take(i - a)) * 10 + d);
                assert(dec_val(t.take(i - a + 1)) > usize::MAX) by {
                    assert(v as int * 10 + d > usize::MAX) by (nonlinear_arith)
                        requires
                            v as int > (usize::MAX - d) / 10,
                            0 <= d <= 9,
                    ;
                }
                if all_digits(t) {
                    lemma_dec_val_prefix(t, i - a + 1);
                    assert(dec_val(t) > usize::MAX);
                }
            }
            return None;
        }
        proof {
            assert(t[i - a] == c);
            assert(t.take(i - a + 1).drop_last() =~= t.take(i - a));
            assert(v as int * 10 + d <= usize::MAX) by (nonlinear_arith)
                requires
                    v as int <= (usize::MAX - d) / 10,
                    0 <= d <= 9,
            ;
        }
        v = v * 10 + d;
        i = i + 1;
    }
    proof {
        assert(t.take(b - a) =~= t);
    }
    Some(v)
}

} // verus!

verus! {

/// Leading separators do not change a range's tokens.
pub proof fn lemma_tokens_skip(s: Seq<u8>, i: int, hi: int)
    requires
        i <= hi,
    ensures
        tokens_in(s, i, hi) == tokens_in(s, skip_seps(s, i, hi), hi),
{
    lemma_skip_seps(s, i, hi);
    let j = skip_seps(s, i, hi);
    assert(skip_seps(s, j, hi) == j);
}

/// First non-separator at or after `i`, executable.
fn skip_separators(s: &Vec<u8>, i: usize, hi: usize) -> (r: usize)
    requires
        i <= hi <= s@.len(),
    ensures
        r as int == skip_seps(s@, i as int, hi as int),
        i <= r <= hi,
{
    proof {
        lemma_skip_seps(s@, i as int, hi as int);
    }
    let mut j = i;
    while j < hi
        invariant
            i <= j <= hi <= s@.len(),
            skip_seps(s@, i as int, hi as int) == skip_seps(s@, j as int, hi as int),
        decreases hi - j,
    {
        let c = s[j];
        if !(c == 32 || c == 9 || c == 13) {
            return j;
        }
        j = j + 1;
    }
    j
}

/// First separator at or after `i`, executable.
fn scan_token_end(s: &Vec<u8>, i: usize, hi: usize) -> (r: usize)
    requires
        i <= hi <= s@.len(),
    ensures
        r as int == token_end(s@, i as int, hi as int),
        i <= r <= hi,
{
    proof {
        lemma_token_end(s@, i as int, hi as int);
    }
    let mut j = i;
    while j < hi
        invariant
            i <= j <= hi <= s@.len(),
            token_end(s@, i as int, hi as int) == token_end(s@, j as int, hi as int),
        decreases hi - j,
    {
        let c = s[j];
        if c == 32 || c == 9 || c == 13 {
            return j;
        }
        j = j + 1;
    }
    j
}

/// The view of an executable token range.
pub open spec fn rng(t: (usize, usize)) -> (int, int) {
    (t.0 as int, t.1 as int)
}

/// Split `s[lo..hi)` into its whitespace-separated tokens.
fn tokenize(s: &Vec<u8>, lo: usize, hi: usize) -> (toks: Vec<(usize, usize)>)
    requires
        lo <= hi <= s@.len(),
    ensures
        toks@.map_values(|t: (usize, usize)| rng(t)) == tokens_in(s@, lo as int, hi as int),
        forall|k: int| 0 <= k < toks@.len() ==> lo <= (#[trigger] toks@[k]).0 && toks@[k].0
            <= toks@[k].1 && toks@[k].1 <= hi,
    decreases hi - lo,
{
    let ghost whole = tokens_in(s@, lo as int, hi as int);
    let mut toks: Vec<(usize, usize)> = Vec::new();
    let mut c = skip_separators(s, lo, hi);
    proof {
        lemma_tokens_skip(s@, lo as int, hi as int);
        assert(toks@.map_values(|t: (usize, usize)| rng(t)) =~= Seq::<(int, int)>::empty());
        assert(whole =~= toks@.map_values(|t: (usize, usize)| rng(t)) + tokens_in(
            s@,
            c as int,
            hi as int,
        ));
    }
    while c < hi
        invariant
            lo <= c <= hi <= s@.len(),
            skip_seps(s@, c as int, hi as int) == c as int,
            whole == tokens_in(s@, lo as int, hi as int),
            whole == toks@.map_values(|t: (usize, usize)| rng(t)) + tokens_in(
                s@,
                c as int,
                hi as int,
            ),
            forall|k: int| 0 <= k < toks@.len() ==> lo <= (#[trigger] toks@[k]).0 && toks@[k].0
                <= toks@[k].1 && toks@[k].1 <= hi,
        decreases hi - c,
    {
        let ghost pre = toks@;
        let ghost rest = tokens_in(s@, c as int, hi as int);
        let e = scan_token_end(s, c, hi);
        proof {
            lemma_token_end(s@, c as int, hi as int);
            assert(!is_sep(s@[c as int]));
            assert(e > c);
        }
        toks.push((c, e));
        let c2 = skip_separators(s, e, hi);
        proof {
            lemma_tokens_skip(s@, e as int, hi as int);
            assert(rest == seq![(c as int, e as int)] + tokens_in(s@, e as int, hi as int));
            assert(toks@.map_values(|t: (usize, usize)| rng(t)) =~= pre.map_values(
                |t: (usize, usize)| rng(t),
            ).push((c as int, e as int)));
            assert(whole =~= toks@.map_values(|t: (usize, usize)| rng(t)) + tokens_in(
                s@,
                c2 as int,
                hi as int,
            ));
        }
        c = c2;
    }
    proof {
        assert(tokens_in(s@, c as int, hi as int) =~= Seq::<(int, int)>::empty());
        assert(whole =~= toks@.map_values(|t: (usize, usize)| rng(t)));
    }
    toks
}

} // verus!

verus! {

/// What one header line declares.
pub enum HeaderLine {
    Format(Encoding),
    Comment,
    Element(Seq<u8>, int),
    Property(Seq<u8>, PropType),
    EndHeader,
    Bad,
}

/// Classify the header line `s[lo..hi)` by its tokens.
pub open spec fn classify(s: Seq<u8>, lo: int, hi: int) -> HeaderLine {
    let ts = tokens_in(s, lo, hi);
    if ts.len() == 0 {
        HeaderLine::Bad
    } else {
        let t0 = tok(s, ts[0]);
        if t0 == kw_comment() || t0 == kw_obj_info() {
            HeaderLine::Comment
        } else if t0 == kw_end_header() {
            if ts.len() == 1 {
                HeaderLine::EndHeader
            } else {
                HeaderLine::Bad
            }
        } else if t0 == kw_format() {
            if ts.len() == 3 && tok(s, ts[2]) == kw_version_one() {
                if tok(s, ts[1]) == kw_ascii() {
                    HeaderLine::Format(Encoding::Ascii)
                } else if tok(s, ts[1]) == kw_binary_little_endian() {
                    HeaderLine::Format(Encoding::BinaryLittleEndian)
                } else if tok(s, ts[1]) == kw_binary_big_endian() {
                    HeaderLine::Format(Encoding::BinaryBigEndian)
                } else {
                    HeaderLine::Bad
                }
            } else {
                HeaderLine::Bad
            }
        } else if t0 == kw_element() {
            if ts.len() == 3 && is_count_token(tok(s, ts[2])) {
                HeaderLine::Element(tok(s, ts[1]), dec_val(tok(s, ts[2])))
            } else {
                HeaderLine::Bad
            }
        } else if t0 == kw_property() {
            if ts.len() == 3 && prop_type_of(tok(s, ts[1])) is Some {
                HeaderLine::Property(tok(s, ts[2]), prop_type_of(tok(s, ts[1])).unwrap())
            } else {
                HeaderLine::Bad
            }
        } else {
            HeaderLine::Bad
        }
    }
}

/// An executable classified header line; names are ranges into the input.
enum LineItem {
    Format(Encoding),
    Comment,
    Element((usize, usize), usize),
    Property((usize, usize), PropType),
    EndHeader,
    Bad,
}

/// Classify one header line, executable.
fn classify_line(s: &Vec<u8>, lo: usize, hi: usize) -> (r: LineItem)
    requires
        lo <= hi <= s@.len(),
    ensures
        match r {
            LineItem::Format(e) => classify(s@, lo as int, hi as int) == HeaderLine::Format(e),
            LineItem::Comment => classify(s@, lo as int, hi as int) == HeaderLine::Comment,
            LineItem::Element(nm, c) => classify(s@, lo as int, hi as int) == HeaderLine::Element(
                s@.subrange(nm.0 as int, nm.1 as int),
                c as int,
            ) && lo <= nm.0 && nm.0 <= nm.1 && nm.1 <= hi,
            LineItem::Property(nm, ty) => classify(s@, lo as int, hi as int)
                == HeaderLine::Property(s@.subrange(nm.0 as int, nm.1 as int), ty) && lo <= nm.0
                && nm.0 <= nm.1 && nm.1 <= hi,
            LineItem::EndHeader => classify(s@, lo as int, hi as int) == HeaderLine::EndHeader,
            LineItem::Bad => classify(s@, lo as int, hi as int) == HeaderLine::Bad,
        },
{
    let toks = tokenize(s, lo, hi);
    let ghost ts = tokens_in(s@, lo as int, hi as int);
    if toks.len() == 0 {
        return LineItem::Bad;
    }
    let t0 = toks[0];
    proof {
        assert(rng(toks@[0]) == ts[0]);
    }
    if is_kw_comment(s, t0.0, t0.1) || is_kw_obj_info(s, t0.0, t0.1) {
        return LineItem::Comment;
    }
    if is_kw_end_header(s, t0.0, t0.1) {
        if toks.len() == 1 {
            return LineItem::EndHeader;
        }
        return LineItem::Bad;
    }
    if is_kw_format(s, t0.0, t0.1) {
        if toks.len() == 3 {
            let t1 = toks[1];
            let t2 = toks[2];
            proof {
                assert(rng(toks@[1]) == ts[1]);
                assert(rng(toks@[2]) == ts[2]);
            }
            if is_kw_version_one(s, t2.0, t2.1) {
                if is_kw_ascii(s, t1.0, t1.1) {
                    return LineItem::Format(Encoding::Ascii);
                }
                if is_kw_binary_little_endian(s, t1.0, t1.1) {
                    return LineItem::Format(Encoding::BinaryLittleEndian);
                }
                if is_kw_binary_big_endian(s, t1.0, t1.1) {
                    return LineItem::Format(Encoding::BinaryBigEndian);
                }
            }
        }
        return LineItem::Bad;
    }
    if is_kw_element(s, t0.0, t0.1) {
        if toks.len() == 3 {
            let t1 = toks[1];
            let t2 = toks[2];
            proof {
                assert(rng(toks@[1]) == ts[1]);
                assert(rng(toks@[2]) == ts[2]);
            }
            match parse_count(s, t2.0, t2.1) {
                Some(c) => {
                    return LineItem::Element(t1, c);
                },
                None => {
                    return LineItem::Bad;
                },
            }
        }
        return LineItem::Bad;
    }
    if is_kw_property(s, t0.0, t0.1) {
        if toks.len() == 3 {
            let t1 = toks[1];
            let t2 = toks[2];
            proof {
                assert(rng(toks@[1]) == ts[1]);
                assert(rng(toks@[2]) == ts[2]);
            }
            match parse_prop_type(s, t1.0, t1.1) {
                Some(ty) => {
                    return LineItem::Property(t2, ty);
                },
                None => {
                    return LineItem::Bad;
                },
            }
        }
        return LineItem::Bad;
    }
    LineItem::Bad
}

} // verus!

verus! {

/// A property declaration: name and declared scalar type.
pub struct SpecProp {
    pub name: Seq<u8>,
    pub ty: PropType,
}

/// An element declaration: name, record count, ordered properties.
pub struct SpecElement {
    pub name: Seq<u8>,
    pub count: int,
    pub props: Seq<SpecProp>,
}

/// A parsed header: the payload encoding, the declared elements, and where
/// the payload begins.
pub struct SpecHeader {
    pub encoding: Encoding,
    pub elements: Seq<SpecElement>,
    pub payload_start: int,
}

/// Parse header lines from `pos` on, with the encoding and elements read so
/// far, until the end-of-header marker.
pub open spec fn parse_header_rec(
    s: Seq<u8>,
    pos: int,
    enc: Option<Encoding>,
    elems: Seq<SpecElement>,
) -> Result<SpecHeader, ReadError>
    decreases s.len() - pos,
    via parse_header_rec_decreases
{
    if pos < 0 || pos >= s.len() {
        Err(ReadError::MalformedHeader)
    } else {
        let hi = line_content_end(s, pos);
        let nx = next_line_pos(s, pos);
        match classify(s, pos, hi) {
            HeaderLine::EndHeader => match enc {
                Some(e) => Ok(
                    SpecHeader { encoding: e, elements: elems, payload_start: nx },
                ),
                None => Err(ReadError::MalformedHeader),
            },
            HeaderLine::Format(e) => if enc is None {
                parse_header_rec(s, nx, Some(e), elems)
            } else {
                Err(ReadError::MalformedHeader)
            },
            HeaderLine::Comment => parse_header_rec(s, nx, enc, elems),
            HeaderLine::Element(name, count) => parse_header_rec(
                s,
                nx,
                enc,
                elems.push(SpecElement { name, count, props: Seq::empty() }),
            ),
            HeaderLine::Property(name, ty) => if elems.len() > 0 {
                parse_header_rec(
                    s,
                    nx,
                    enc,
                    elems.drop_last().push(
                        SpecElement {
                            name: elems.last().name,
                            count: elems.last().count,
                            props: elems.last().props.push(SpecProp { name, ty }),
                        },
                    ),
                )
            } else {
                Err(ReadError::MalformedHeader)
            },
            HeaderLine::Bad => Err(ReadError::MalformedHeader),
        }
    }
}

#[via_fn]
proof fn parse_header_rec_decreases(
    s: Seq<u8>,
    pos: int,
    enc: Option<Encoding>,
    elems: Seq<SpecElement>,
) {
    if 0 <= pos < s.len() {
        lemma_line_end(s, pos);
    }
}

/// Parse a whole header: the magic line, then declarations to the marker.
pub open spec fn parse_header(s: Seq<u8>) -> Result<SpecHeader, ReadError> {
    if s.subrange(0, line_content_end(s, 0)) == kw_ply() {
        parse_header_rec(s, next_line_pos(s, 0), None, Seq::empty())
    } else {
        Err(ReadError::MalformedHeader)
    }
}

/// An element declaration under construction; name and property names are
/// ranges into the input.
struct ElemRec {
    name: (usize, usize),
    count: usize,
    props: Vec<((usize, usize), PropType)>,
}

/// The declaration an `ElemRec` stands for.
spec fn elem_view(s: Seq<u8>, e: ElemRec) -> SpecElement {
    SpecElement {
        name: s.subrange(e.name.0 as int, e.name.1 as int),
        count: e.count as int,
        props: e.props@.map_values(
            |p: ((usize, usize), PropType)|
                SpecProp { name: s.subrange(p.0.0 as int, p.0.1 as int), ty: p.1 },
        ),
    }
}

spec fn elems_view(s: Seq<u8>, es: Seq<ElemRec>) -> Seq<SpecElement> {
    es.map_values(|e: ElemRec| elem_view(s, e))
}

/// All ranges of an element record lie inside the input.
spec fn elem_bounds(n: int, e: ElemRec) -> bool {
    &&& e.name.0 <= e.name.1 <= n
    &&& forall|k: int|
        0 <= k < e.props@.len() ==> (#[trigger] e.props@[k]).0.0 <= e.props@[k].0.1
            && e.props@[k].0.1 <= n
}

spec fn elems_bounds(n: int, es: Seq<ElemRec>) -> bool {
    forall|k: int| 0 <= k < es.len() ==> elem_bounds(n, #[trigger] es[k])
}

/// End of the content of the line at `pos`, executable.
fn line_content_end_exec(s: &Vec<u8>, pos: usize) -> (r: usize)
    requires
        pos <= s@.len(),
    ensures
        r as int == line_content_end(s@, pos as int),
        pos <= r <= s@.len(),
{
    proof {
        lemma_line_end(s@, pos as int);
    }
    let mut j = pos;
    while j < s.len()
        invariant
            pos <= j <= s@.len(),
            line_end(s@, pos as int) == line_end(s@, j as int),
        decreases s@.len() - j,
    {
        if s[j] == 10 {
            if j > pos && s[j - 1] == 13 {
                return j - 1;
            }
            return j;
        }
        j = j + 1;
    }
    if j > pos && s[j - 1] == 13 {
        return j - 1;
    }
    j
}

/// Start of the next line, executable.
fn next_line_exec(s: &Vec<u8>, pos: usize) -> (r: usize)
    requires
        pos <= s@.len(),
    ensures
        r as int == next_line_pos(s@, pos as int),
        pos <= r <= s@.len(),
        pos < s@.len() ==> pos < r,
{
    proof {
        lemma_line_end(s@, pos as int);
    }
    let mut j = pos;
    while j < s.len()
        invariant
            pos <= j <= s@.len(),
            line_end(s@, pos as int) == line_end(s@, j as int),
        decreases s@.len() - j,
    {
        if s[j] == 10 {
            return j + 1;
        }
        j = j + 1;
    }
    j
}

/// Parse the header of `s`: the encoding, the element declarations, and
/// where the payload starts.
fn parse_header_exec(s: &Vec<u8>) -> (r: Result<(Encoding, Vec<ElemRec>, usize), ReadError>)
    ensures
        r matches Ok((enc, elems, pstart)) ==> parse_header(s@) == Ok::<SpecHeader, ReadError>(
            SpecHeader {
                encoding: enc,
                elements: elems_view(s@, elems@),
                payload_start: pstart as int,
            },
        ) && pstart <= s@.len() && elems_bounds(s@.len() as int, elems@),
        r matches Err(e) ==> parse_header(s@) == Err::<SpecHeader, ReadError>(e),
{
    let hi0 = line_content_end_exec(s, 0);
    if !is_kw_ply(s, 0, hi0) {
        return Err(ReadError::MalformedHeader);
    }
    let mut pos = next_line_exec(s, 0);
    let mut enc: Option<Encoding> = None;
    let mut elems: Vec<ElemRec> = Vec::new();
    proof {
        assert(elems_view(s@, elems@) =~= Seq::<SpecElement>::empty());
    }
    while pos < s.len()
        invariant
            pos <= s@.len(),
            elems_bounds(s@.len() as int, elems@),
            parse_header(s@) == parse_header_rec(s@, pos as int, enc, elems_view(s@, elems@)),
        decreases s@.len() - pos,
    {
        let hi = line_content_end_exec(s, pos);
        let nx = next_line_exec(s, pos);
        let ghost pre = elems_view(s@, elems@);
        match classify_line(s, pos, hi) {
            LineItem::EndHeader => {
                match enc {
                    Some(e) => {
                        return Ok((e, elems, nx));
                    },
                    None => {
                        return Err(ReadError::MalformedHeader);
                    },
                }
            },
            LineItem::Format(e) => {
                if enc.is_none() {
                    enc = Some(e);
                } else {
                    return Err(ReadError::MalformedHeader);
                }
            },
            LineItem::Comment => {},
            LineItem::Element(nm, c) => {
                elems.push(ElemRec { name: nm, count: c, props: Vec::new() });
                proof {
                    let ne = elems@.last();
                    assert(elem_view(s@, ne).props =~= Seq::<SpecProp>::empty());
                    assert(elems_view(s@, elems@) =~= pre.push(elem_view(s@, ne)));
                }
            },
            LineItem::Property(nm, ty) => {
                if elems.len() == 0 {
                    return Err(ReadError::MalformedHeader);
                }
                match elems.pop() {
                    Some(mut e) => {
                        let ghost eold = e;
                        e.props.push((nm, ty));
                        proof {
                            assert(elem_view(s@, e).props =~= elem_view(s@, eold).props.push(
                                SpecProp {
                                    name: s@.subrange(nm.0 as int, nm.1 as int),
                                    ty,
                                },
                            ));
                        }
                        elems.push(e);
                        proof {
                            assert(elems_view(s@, elems@) =~= pre.drop_last().push(
                                SpecElement {
                                    name: pre.last().name,
                                    count: pre.last().count,
                                    props: pre.last().props.push(
                                        SpecProp {
                                            name: s@.subrange(nm.0 as int, nm.1 as int),
                                            ty,
                                        },
                                    ),
                                },
                            ));
                        }
                    },
                    None => {
                        proof {
                            assert(false);
                        }
                        return Err(ReadError::MalformedHeader);
                    },
                }
            },
            LineItem::Bad => {
                return Err(ReadError::MalformedHeader);
            },
        }
        pos = nx;
    }
    Err(ReadError::MalformedHeader)
}

} // verus!

verus! {

/// Bytes one field occupies in a binary record.
pub open spec fn field_size(f: VertexField) -> int {
    match f {
        VertexField::Red => 1,
        VertexField::Green => 1,
        VertexField::Blue => 1,
        _ => 4,
    }
}

/// Bytes the first `k` fields occupy: the offset of field `k`.
pub open spec fn fields_size(fs: Seq<VertexField>, k: int) -> int
    decreases k,
{
    if k <= 0 {
        0
    } else {
        fields_size(fs, k - 1) + field_size(fs[k - 1])
    }
}

pub proof fn lemma_fields_size_mono(fs: Seq<VertexField>, i: int, j: int)
    requires
        0 <= i <= j,
    ensures
        fields_size(fs, i) <= fields_size(fs, j),
        fields_size(fs, i) >= 0,
    decreases j + i,
{
    if i > 0 {
        lemma_fields_size_mono(fs, i - 1, i - 1);
    }
    if i < j {
        lemma_fields_size_mono(fs, i, j - 1);
    }
}

/// A 32-bit pattern assembled from four little-endian bytes.
pub open spec fn u32_from_le(b0: u8, b1: u8, b2: u8, b3: u8) -> u32 {
    (b0 as u32) | ((b1 as u32) << 8) | ((b2 as u32) << 16) | ((b3 as u32) << 24)
}

/// A 32-bit pattern assembled from four big-endian bytes.
pub open spec fn u32_from_be(b0: u8, b1: u8, b2: u8, b3: u8) -> u32 {
    (b3 as u32) | ((b2 as u32) << 8) | ((b1 as u32) << 16) | ((b0 as u32) << 24)
}

/// The value of one field read at `off` in a binary payload.
pub open spec fn bin_value(s: Seq<u8>, off: int, f: VertexField, enc: Encoding) -> PropValue {
    if field_size(f) == 1 {
        PropValue::UChar(s[off])
    } else if enc == Encoding::BinaryLittleEndian {
        PropValue::Float(u32_from_le(s[off], s[off + 1], s[off + 2], s[off + 3]))
    } else {
        PropValue::Float(u32_from_be(s[off], s[off + 1], s[off + 2], s[off + 3]))
    }
}

/// Decode the fields from `k` on of one binary record starting at `base`.
pub open spec fn decode_bin_record(
    s: Seq<u8>,
    base: int,
    fs: Seq<VertexField>,
    k: int,
    acc: PointRecord,
    enc: Encoding,
) -> PointRecord
    decreases fs.len() - k,
{
    if k < 0 || k >= fs.len() {
        acc
    } else {
        decode_bin_record(
            s,
            base,
            fs,
            k + 1,
            record_with(acc, fs[k], bin_value(s, base + fields_size(fs, k), fs[k], enc)),
            enc,
        )
    }
}

/// All records of one binary element: record `i` sits at `base + i * size`.
pub open spec fn decode_bin_records(
    s: Seq<u8>,
    base: int,
    fs: Seq<VertexField>,
    count: int,
    enc: Encoding,
) -> Seq<PointRecord> {
    Seq::new(
        count as nat,
        |i: int|
            decode_bin_record(
                s,
                base + i * fields_size(fs, fs.len() as int),
                fs,
                0,
                zero_record(),
                enc,
            ),
    )
}

/// The value of one field read from a text token, if the token decodes.
pub open spec fn ascii_value(s: Seq<u8>, t: (int, int), f: VertexField) -> Option<PropValue> {
    let bytes = tok(s, t);
    if field_size(f) == 1 {
        if bytes.len() > 0 && all_digits(bytes) && dec_val(bytes) <= 255 {
            Some(PropValue::UChar(dec_val(bytes) as u8))
        } else {
            None
        }
    } else {
        match float_bits_of(bytes) {
            Some(v) => Some(PropValue::Float(v)),
            None => None,
        }
    }
}

/// Decode the fields from `k` on of one text row, token by token.
pub open spec fn decode_ascii_row(
    s: Seq<u8>,
    ts: Seq<(int, int)>,
    fs: Seq<VertexField>,
    k: int,
    acc: PointRecord,
) -> Result<PointRecord, ReadError>
    decreases fs.len() - k,
{
    if k < 0 || k >= fs.len() {
        Ok(acc)
    } else {
        match ascii_value(s, ts[k], fs[k]) {
            Some(v) => decode_ascii_row(s, ts, fs, k + 1, record_with(acc, fs[k], v)),
            None => Err(ReadError::MalformedPayload),
        }
    }
}

/// Decode `count` text rows, one per line, from `pos` on.
pub open spec fn decode_ascii_rows(
    s: Seq<u8>,
    pos: int,
    count: int,
    fs: Seq<VertexField>,
    acc: Seq<PointRecord>,
) -> Result<(Seq<PointRecord>, int), ReadError>
    decreases count,
{
    if count <= 0 {
        Ok((acc, pos))
    } else if pos >= s.len() {
        Err(ReadError::MalformedPayload)
    } else {
        let ts = tokens_in(s, pos, line_content_end(s, pos));
        if ts.len() != fs.len() {
            Err(ReadError::MalformedPayload)
        } else {
            match decode_ascii_row(s, ts, fs, 0, zero_record()) {
                Ok(r) => decode_ascii_rows(s, next_line_pos(s, pos), count - 1, fs, acc.push(r)),
                Err(e) => Err(e),
            }
        }
    }
}

/// Every property of a vertex element must land in the fixed schema.
pub open spec fn all_props_known(props: Seq<SpecProp>) -> bool {
    forall|k: int|
        0 <= k < props.len() ==> field_of((#[trigger] props[k]).name, props[k].ty) is Some
}

/// The record fields a vertex element's properties land in, in order.
pub open spec fn fields_of_props(props: Seq<SpecProp>) -> Seq<VertexField> {
    props.map_values(|p: SpecProp| field_of(p.name, p.ty).unwrap())
}

/// Walk the declared elements in order, consuming the payload. Only vertex
/// elements are supported; the records of the last one decoded are the
/// result. An element with a property outside the fixed schema is fatal
/// whether or not any record follows.
pub open spec fn run_payload(
    s: Seq<u8>,
    pos: int,
    elems: Seq<SpecElement>,
    k: int,
    enc: Encoding,
    cur: Seq<PointRecord>,
) -> Result<Seq<PointRecord>, ReadError>
    decreases elems.len() - k,
{
    if k < 0 || k >= elems.len() {
        Ok(cur)
    } else {
        let e = elems[k];
        if e.name != kw_vertex() {
            Err(ReadError::UnsupportedElement)
        } else if !all_props_known(e.props) {
            Err(ReadError::UnexpectedProperty)
        } else {
            let fs = fields_of_props(e.props);
            match enc {
                Encoding::Ascii => match decode_ascii_rows(s, pos, e.count, fs, Seq::empty()) {
                    Ok(rp) => run_payload(s, rp.1, elems, k + 1, enc, rp.0),
                    Err(er) => Err(er),
                },
                _ => {
                    let size = fields_size(fs, fs.len() as int);
                    if e.count > 0 && pos + e.count * size > s.len() {
                        Err(ReadError::MalformedPayload)
                    } else {
                        run_payload(
                            s,
                            pos + e.count * size,
                            elems,
                            k + 1,
                            enc,
                            decode_bin_records(s, pos, fs, e.count, enc),
                        )
                    }
                },
            }
        }
    }
}

/// What loading an input must yield: the header parsed, then the payload
/// decoded element by element.
pub open spec fn spec_load(s: Seq<u8>) -> Result<Seq<PointRecord>, ReadError> {
    match parse_header(s) {
        Ok(h) => run_payload(s, h.payload_start, h.elements, 0, h.encoding, Seq::empty()),
        Err(e) => Err(e),
    }
}

} // verus!

verus! {

/// Copy `s[a..b)` into a fresh vector.
fn copy_range(s: &Vec<u8>, a: usize, b: usize) -> (r: Vec<u8>)
    requires
        a <= b <= s@.len(),
    ensures
        r@ == s@.subrange(a as int, b as int),
{
    let mut r: Vec<u8> = Vec::new();
    let mut i = a;
    while i < b
        invariant
            a <= i <= b <= s@.len(),
            r@ =~= s@.subrange(a as int, i as int),
        decreases b - i,
    {
        r.push(s[i]);
        proof {
            assert(r@ =~= s@.subrange(a as int, i + 1));
        }
        i = i + 1;
    }
    r
}

/// Parse a text token as an 8-bit color channel.
fn parse_u8_token(s: &Vec<u8>, a: usize, b: usize) -> (r: Option<u8>)
    requires
        a <= b <= s@.len(),
    ensures
        ({
            let t = s@.subrange(a as int, b as int);
            match r {
                Some(v) => t.len() > 0 && all_digits(t) && dec_val(t) <= 255 && v as int
                    == dec_val(t),
                None => !(t.len() > 0 && all_digits(t) && dec_val(t) <= 255),
            }
        }),
{
    match parse_count(s, a, b) {
        Some(v) => if v <= 255 {
            Some(v as u8)
        } else {
            None
        },
        None => None,
    }
}

/// `field_size`, executable.
fn field_size_exec(f: VertexField) -> (r: usize)
    ensures
        r as int == field_size(f),
{
    match f {
        VertexField::Red => 1,
        VertexField::Green => 1,
        VertexField::Blue => 1,
        _ => 4,
    }
}

/// Decode one field of one binary record.
fn read_bin_value(s: &Vec<u8>, off: usize, f: VertexField, enc: Encoding) -> (r: PropValue)
    requires
        off + field_size(f) <= s@.len(),
        enc != Encoding::Ascii,
    ensures
        r == bin_value(s@, off as int, f, enc),
{
    match f {
        VertexField::Red => PropValue::UChar(s[off]),
        VertexField::Green => PropValue::UChar(s[off]),
        VertexField::Blue => PropValue::UChar(s[off]),
        _ => {
            proof {
                vstd::std_specs::vec::axiom_spec_len(s);
                assert(field_size(f) == 4);
            }
            let b0 = s[off];
            let b1 = s[off + 1];
            let b2 = s[off + 2];
            let b3 = s[off + 3];
            match enc {
                Encoding::BinaryLittleEndian => PropValue::Float(
                    (b0 as u32) | ((b1 as u32) << 8) | ((b2 as u32) << 16) | ((b3 as u32) << 24),
                ),
                _ => PropValue::Float(
                    (b3 as u32) | ((b2 as u32) << 8) | ((b1 as u32) << 16) | ((b0 as u32) << 24),
                ),
            }
        },
    }
}

/// Decode one binary record at `base`.
fn decode_bin_record_exec(
    s: &Vec<u8>,
    base: usize,
    fields: &Vec<VertexField>,
    enc: Encoding,
) -> (r: PointRecord)
    requires
        base + fields_size(fields@, fields@.len() as int) <= s@.len(),
        enc != Encoding::Ascii,
    ensures
        r == decode_bin_record(s@, base as int, fields@, 0, zero_record(), enc),
{
    let mut acc = PointRecord::new();
    let mut off = base;
    let mut k: usize = 0;
    while k < fields.len()
        invariant
            0 <= k <= fields@.len(),
            base + fields_size(fields@, fields@.len() as int) <= s@.len(),
            enc != Encoding::Ascii,
            off as int == base + fields_size(fields@, k as int),
            decode_bin_record(s@, base as int, fields@, 0, zero_record(), enc)
                == decode_bin_record(s@, base as int, fields@, k as int, acc, enc),
        decreases fields@.len() - k,
    {
        let f = fields[k];
        proof {
            vstd::std_specs::vec::axiom_spec_len(s);
            lemma_fields_size_mono(fields@, k as int, k as int);
            lemma_fields_size_mono(fields@, k + 1, fields@.len() as int);
            assert(fields_size(fields@, k + 1) == fields_size(fields@, k as int) + field_size(f));
        }
        let v = read_bin_value(s, off, f, enc);
        let ghost acc0 = acc;
        acc.set_property(f, v);
        proof {
            assert(acc == record_with(acc0, f, bin_value(s@, off as int, f, enc)));
        }
        let sz = field_size_exec(f);
        off = off + sz;
        k = k + 1;
    }
    acc
}

/// Total record size in bytes, executable.
fn record_size_exec(fields: &Vec<VertexField>, cap: usize) -> (r: usize)
    requires
        fields_size(fields@, fields@.len() as int) <= cap,
    ensures
        r as int == fields_size(fields@, fields@.len() as int),
{
    let mut advance: usize = 0;
    let mut k: usize = 0;
    while k < fields.len()
        invariant
            0 <= k <= fields@.len(),
            advance as int == fields_size(fields@, k as int),
            fields_size(fields@, fields@.len() as int) <= cap,
        decreases fields@.len() - k,
    {
        proof {
            lemma_fields_size_mono(fields@, k + 1, fields@.len() as int);
        }
        let sz = field_size_exec(fields[k]);
        advance = advance + sz;
        k = k + 1;
    }
    advance
}

/// Decode all records of one binary element.
fn decode_bin_records_exec(
    s: &Vec<u8>,
    base: usize,
    count: usize,
    fields: &Vec<VertexField>,
    enc: Encoding,
) -> (r: Vec<PointRecord>)
    requires
        enc != Encoding::Ascii,
        base + count * fields_size(fields@, fields@.len() as int) <= s@.len(),
        fields_size(fields@, fields@.len() as int) >= 0,
        base <= s@.len(),
    ensures
        r@ == decode_bin_records(s@, base as int, fields@, count as int, enc),
{
    let ghost size = fields_size(fields@, fields@.len() as int);
    let mut r: Vec<PointRecord> = Vec::new();
    if count == 0 {
        proof {
            assert(r@ =~= decode_bin_records(s@, base as int, fields@, count as int, enc));
        }
        return r;
    }
    proof {
        assert(size <= count * size) by (nonlinear_arith)
            requires
                count >= 1,
                size >= 0,
        ;
    }
    let rsize = record_size_exec(fields, s.len());
    let mut i: usize = 0;
    let mut off = base;
    while i < count
        invariant
            0 <= i <= count,
            enc != Encoding::Ascii,
            size == fields_size(fields@, fields@.len() as int),
            rsize as int == size,
            size >= 0,
            base + count * size <= s@.len(),
            off as int == base + i * size,
            r@.len() == i,
            forall|q: int|
                0 <= q < i ==> r@[q] == decode_bin_record(
                    s@,
                    base + q * size,
                    fields@,
                    0,
                    zero_record(),
                    enc,
                ),
        decreases count - i,
    {
        proof {
            vstd::std_specs::vec::axiom_spec_len(s);
            assert((i + 1) * size == i * size + size) by (nonlinear_arith);
            assert((i + 1) * size <= count * size) by (nonlinear_arith)
                requires
                    i + 1 <= count,
                    size >= 0,
            ;
            assert(i * size >= 0) by (nonlinear_arith)
                requires
                    i >= 0,
                    size >= 0,
            ;
        }
        let rec = decode_bin_record_exec(s, off, fields, enc);
        r.push(rec);
        off = off + rsize;
        i = i + 1;
    }
    proof {
        assert(r@ =~= decode_bin_records(s@, base as int, fields@, count as int, enc));
    }
    r
}

} // verus!

verus! {

/// Decode one text row from its tokens.
fn decode_ascii_row_exec(
    s: &Vec<u8>,
    toks: &Vec<(usize, usize)>,
    fields: &Vec<VertexField>,
) -> (r: Result<PointRecord, ReadError>)
    requires
        toks@.len() == fields@.len(),
        forall|k: int| 0 <= k < toks@.len() ==> (#[trigger] toks@[k]).0 <= toks@[k].1
            && toks@[k].1 <= s@.len(),
    ensures
        ({
            let ts = toks@.map_values(|t: (usize, usize)| rng(t));
            match r {
                Ok(rec) => decode_ascii_row(s@, ts, fields@, 0, zero_record()) == Ok::<
                    PointRecord,
                    ReadError,
                >(rec),
                Err(e) => decode_ascii_row(s@, ts, fields@, 0, zero_record()) == Err::<
                    PointRecord,
                    ReadError,
                >(e),
            }
        }),
{
    let ghost ts = toks@.map_values(|t: (usize, usize)| rng(t));
    let mut acc = PointRecord::new();
    let mut k: usize = 0;
    while k < fields.len()
        invariant
            0 <= k <= fields@.len(),
            toks@.len() == fields@.len(),
            ts == toks@.map_values(|t: (usize, usize)| rng(t)),
            forall|q: int| 0 <= q < toks@.len() ==> (#[trigger] toks@[q]).0 <= toks@[q].1
                && toks@[q].1 <= s@.len(),
            decode_ascii_row(s@, ts, fields@, 0, zero_record()) == decode_ascii_row(
                s@,
                ts,
                fields@,
                k as int,
                acc,
            ),
        decreases fields@.len() - k,
    {
        let f = fields[k];
        let t = toks[k];
        proof {
            assert(ts[k as int] == rng(toks@[k as int]));
        }
        let v: PropValue;
        match f {
            VertexField::Red | VertexField::Green | VertexField::Blue => {
                proof {
                    assert(field_size(f) == 1);
                }
                match parse_u8_token(s, t.0, t.1) {
                    Some(b) => {
                        v = PropValue::UChar(b);
                    },
                    None => {
                        return Err(ReadError::MalformedPayload);
                    },
                }
            },
            _ => {
                proof {
                    assert(field_size(f) == 4);
                }
                let bytes = copy_range(s, t.0, t.1);
                match parse_float_token(&bytes) {
                    Some(bits) => {
                        v = PropValue::Float(bits);
                    },
                    None => {
                        return Err(ReadError::MalformedPayload);
                    },
                }
            },
        }
        proof {
            assert(ascii_value(s@, ts[k as int], f) == Some(v));
        }
        let ghost acc0 = acc;
        acc.set_property(f, v);
        proof {
            assert(acc == record_with(acc0, f, v));
        }
        k = k + 1;
    }
    Ok(acc)
}

/// Decode all rows of one text element, one line each.
fn decode_ascii_rows_exec(
    s: &Vec<u8>,
    pos: usize,
    count: usize,
    fields: &Vec<VertexField>,
) -> (r: Result<(Vec<PointRecord>, usize), ReadError>)
    requires
        pos <= s@.len(),
    ensures
        ({
            let whole = decode_ascii_rows(s@, pos as int, count as int, fields@, Seq::empty());
            match r {
                Ok((recs, p2)) => whole == Ok::<_, ReadError>((recs@, p2 as int)) && p2
                    <= s@.len(),
                Err(e) => whole == Err::<(Seq<PointRecord>, int), ReadError>(e),
            }
        }),
{
    let ghost whole = decode_ascii_rows(s@, pos as int, count as int, fields@, Seq::empty());
    let mut recs: Vec<PointRecord> = Vec::new();
    let mut cur = pos;
    let mut i: usize = 0;
    while i < count
        invariant
            0 <= i <= count,
            cur <= s@.len(),
            whole == decode_ascii_rows(s@, pos as int, count as int, fields@, Seq::empty()),
            whole == ({
                let tail = decode_ascii_rows(
                    s@,
                    cur as int,
                    count - i,
                    fields@,
                    recs@,
                );
                tail
            }),
        decreases count - i,
    {
        if cur >= s.len() {
            return Err(ReadError::MalformedPayload);
        }
        let hi = line_content_end_exec(s, cur);
        let nx = next_line_exec(s, cur);
        let toks = tokenize(s, cur, hi);
        proof {
            assert(toks@.map_values(|t: (usize, usize)| rng(t)).len() == tokens_in(
                s@,
                cur as int,
                hi as int,
            ).len());
        }
        if toks.len() != fields.len() {
            return Err(ReadError::MalformedPayload);
        }
        match decode_ascii_row_exec(s, &toks, fields) {
            Ok(rec) => {
                recs.push(rec);
            },
            Err(e) => {
                return Err(e);
            },
        }
        cur = nx;
        i = i + 1;
    }
    Ok((recs, cur))
}

} // verus!

verus! {

/// Map an element's properties into the fixed vertex schema, or discover a
/// property outside it.
fn fields_for_element(s: &Vec<u8>, e: &ElemRec) -> (r: Option<Vec<VertexField>>)
    requires
        elem_bounds(s@.len() as int, *e),
    ensures
        r matches Some(fs) ==> all_props_known(elem_view(s@, *e).props) && fs@ == fields_of_props(
            elem_view(s@, *e).props,
        ),
        r is None ==> !all_props_known(elem_view(s@, *e).props),
{
    let ghost props = elem_view(s@, *e).props;
    let mut fs: Vec<VertexField> = Vec::new();
    let mut k: usize = 0;
    while k < e.props.len()
        invariant
            0 <= k <= e.props@.len(),
            elem_bounds(s@.len() as int, *e),
            props == elem_view(s@, *e).props,
            props.len() == e.props@.len(),
            fs@.len() == k,
            forall|q: int|
                0 <= q < k ==> field_of((#[trigger] props[q]).name, props[q].ty) is Some,
            forall|q: int|
                0 <= q < k ==> fs@[q] == field_of((#[trigger] props[q]).name, props[q].ty).unwrap(),
        decreases e.props@.len() - k,
    {
        let p = e.props[k];
        proof {
            assert(props[k as int] == SpecProp {
                name: s@.subrange(p.0.0 as int, p.0.1 as int),
                ty: p.1,
            });
        }
        match lookup_field(s, p.0.0, p.0.1, p.1) {
            Some(f) => {
                fs.push(f);
            },
            None => {
                proof {
                    assert(field_of(props[k as int].name, props[k as int].ty) is None);
                }
                return None;
            },
        }
        k = k + 1;
    }
    proof {
        assert(fs@ =~= fields_of_props(props));
    }
    Some(fs)
}

/// Walk the declared elements in order, decoding each vertex payload block.
fn run_payload_exec(s: &Vec<u8>, pstart: usize, enc: Encoding, elems: &Vec<ElemRec>) -> (r:
    Result<Vec<PointRecord>, ReadError>)
    requires
        pstart <= s@.len(),
        elems_bounds(s@.len() as int, elems@),
    ensures
        ({
            let whole = run_payload(
                s@,
                pstart as int,
                elems_view(s@, elems@),
                0,
                enc,
                Seq::empty(),
            );
            match r {
                Ok(v) => whole == Ok::<_, ReadError>(v@),
                Err(e) => whole == Err::<Seq<PointRecord>, ReadError>(e),
            }
        }),
{
    let ghost ev = elems_view(s@, elems@);
    let ghost whole = run_payload(s@, pstart as int, ev, 0, enc, Seq::empty());
    let mut recs: Vec<PointRecord> = Vec::new();
    let mut pos = pstart;
    let mut k: usize = 0;
    proof {
        assert(recs@ =~= Seq::<PointRecord>::empty());
    }
    while k < elems.len()
        invariant
            0 <= k <= elems@.len(),
            pos <= s@.len(),
            elems_bounds(s@.len() as int, elems@),
            ev == elems_view(s@, elems@),
            ev.len() == elems@.len(),
            whole == run_payload(s@, pstart as int, ev, 0, enc, Seq::empty()),
            whole == run_payload(s@, pos as int, ev, k as int, enc, recs@),
        decreases elems@.len() - k,
    {
        let e = &elems[k];
        proof {
            assert(ev[k as int] == elem_view(s@, elems@[k as int]));
        }
        if !is_kw_vertex(s, e.name.0, e.name.1) {
            return Err(ReadError::UnsupportedElement);
        }
        let fields = match fields_for_element(s, e) {
            Some(fs) => fs,
            None => {
                return Err(ReadError::UnexpectedProperty);
            },
        };
        let count = e.count;
        match enc {
            Encoding::Ascii => {
                match decode_ascii_rows_exec(s, pos, count, &fields) {
                    Ok((rs, p2)) => {
                        recs = rs;
                        pos = p2;
                    },
                    Err(er) => {
                        return Err(er);
                    },
                }
            },
            _ => {
                if count == 0 {
                    recs = Vec::new();
                    proof {
                        assert(recs@ =~= decode_bin_records(
                            s@,
                            pos as int,
                            fields@,
                            0,
                            enc,
                        ));
                        assert(pos as int + 0 * fields_size(fields@, fields@.len() as int)
                            == pos as int);
                    }
                } else {
                    let rsize = record_size_exec_capped(&fields, s.len());
                    let ghost size = fields_size(fields@, fields@.len() as int);
                    match rsize {
                        None => {
                            proof {
                                assert(size > s@.len());
                                assert(count as int * size >= size) by (nonlinear_arith)
                                    requires
                                        count >= 1,
                                        size >= 0,
                                ;
                            }
                            return Err(ReadError::MalformedPayload);
                        },
                        Some(rs) => {
                            proof {
                                assert((count as int) * (rs as int)
                                    < 0x1_0000_0000_0000_0000_0000_0000_0000_0000)
                                    by (nonlinear_arith)
                                    requires
                                        0 <= (count as int) < 0x1_0000_0000_0000_0000,
                                        0 <= (rs as int) < 0x1_0000_0000_0000_0000,
                                ;
                            }
                            let need = (count as u128) * (rs as u128);
                            if need > ((s.len() - pos) as u128) {
                                proof {
                                    assert(pos as int + count as int * size > s@.len());
                                }
                                return Err(ReadError::MalformedPayload);
                            }
                            let bytes = (count * rs) as usize;
                            let out = decode_bin_records_exec(s, pos, count, &fields, enc);
                            recs = out;
                            pos = pos + bytes;
                        },
                    }
                }
            },
        }
        k = k + 1;
    }
    Ok(recs)
}

/// Whole-record size when it fits under `cap`.
fn record_size_exec_capped(fields: &Vec<VertexField>, cap: usize) -> (r: Option<usize>)
    ensures
        r matches Some(v) ==> v as int == fields_size(fields@, fields@.len() as int) && v <= cap,
        r is None ==> fields_size(fields@, fields@.len() as int) > cap,
{
    let mut advance: usize = 0;
    let mut k: usize = 0;
    while k < fields.len()
        invariant
            0 <= k <= fields@.len(),
            advance as int == fields_size(fields@, k as int),
            advance <= cap,
        decreases fields@.len() - k,
    {
        let sz = field_size_exec(fields[k]);
        if sz > cap || advance > cap - sz {
            proof {
                lemma_fields_size_mono(fields@, k + 1, fields@.len() as int);
            }
            return None;
        }
        advance = advance + sz;
        k = k + 1;
    }
    Some(advance)
}

/// Load a point cloud from the bytes of a PLY input: parse the header, then
/// decode the vertex payload. Returns the decoded records in file order, or
/// the error that aborted the load; no partial result is ever returned.
pub fn load_point_cloud(bytes: &Vec<u8>) -> (r: Result<Vec<PointRecord>, ReadError>)
    ensures
        r matches Ok(v) ==> spec_load(bytes@) == Ok::<_, ReadError>(v@),
        r matches Err(e) ==> spec_load(bytes@) == Err::<Seq<PointRecord>, ReadError>(e),
{
    match parse_header_exec(bytes) {
        Ok((enc, elems, pstart)) => run_payload_exec(bytes, pstart, enc, &elems),
        Err(e) => Err(e),
    }
}

} // verus!

verus! {

/// Every element of a parsed header declares a nonnegative count.
pub proof fn lemma_header_counts_nonneg(
    s: Seq<u8>,
    pos: int,
    enc: Option<Encoding>,
    elems: Seq<SpecElement>,
    h: SpecHeader,
)
    requires
        parse_header_rec(s, pos, enc, elems) == Ok::<SpecHeader, ReadError>(h),
        forall|k: int| 0 <= k < elems.len() ==> (#[trigger] elems[k]).count >= 0,
    ensures
        forall|k: int| 0 <= k < h.elements.len() ==> (#[trigger] h.elements[k]).count >= 0,
    decreases s.len() - pos,
{
    assert(0 <= pos < s.len());
    lemma_line_end(s, pos);
    let hi = line_content_end(s, pos);
    let nx = next_line_pos(s, pos);
    match classify(s, pos, hi) {
        HeaderLine::EndHeader => {},
        HeaderLine::Format(e) => {
            if enc is None {
                lemma_header_counts_nonneg(s, nx, Some(e), elems, h);
            }
        },
        HeaderLine::Comment => {
            lemma_header_counts_nonneg(s, nx, enc, elems, h);
        },
        HeaderLine::Element(name, count) => {
            let ts = tokens_in(s, pos, hi);
            assert(count == dec_val(tok(s, ts[2])) && is_count_token(tok(s, ts[2])));
            lemma_dec_val_prefix(tok(s, ts[2]), 0);
            lemma_header_counts_nonneg(
                s,
                nx,
                enc,
                elems.push(SpecElement { name, count, props: Seq::empty() }),
                h,
            );
        },
        HeaderLine::Property(name, ty) => {
            if elems.len() > 0 {
                lemma_header_counts_nonneg(
                    s,
                    nx,
                    enc,
                    elems.drop_last().push(
                        SpecElement {
                            name: elems.last().name,
                            count: elems.last().count,
                            props: elems.last().props.push(SpecProp { name, ty }),
                        },
                    ),
                    h,
                );
            }
        },
        HeaderLine::Bad => {},
    }
}

/// A text decode that succeeds keeps what it was given and adds exactly
/// `count` records, one per line; record `i` is the decode of row `i`.
pub open spec fn ascii_row_pos(s: Seq<u8>, pos: int, i: int) -> int
    decreases i,
{
    if i <= 0 {
        pos
    } else {
        next_line_pos(s, ascii_row_pos(s, pos, i - 1))
    }
}

pub proof fn lemma_ascii_rows_fidelity(
    s: Seq<u8>,
    pos: int,
    count: int,
    fs: Seq<VertexField>,
    acc: Seq<PointRecord>,
    res: Seq<PointRecord>,
    p2: int,
)
    requires
        count >= 0,
        decode_ascii_rows(s, pos, count, fs, acc) == Ok::<(Seq<PointRecord>, int), ReadError>(
            (res, p2),
        ),
    ensures
        res.len() == acc.len() + count,
        forall|q: int| 0 <= q < acc.len() ==> res[q] == acc[q],
        forall|i: int|
            0 <= i < count ==> decode_ascii_row(
                s,
                tokens_in(
                    s,
                    ascii_row_pos(s, pos, i),
                    line_content_end(s, ascii_row_pos(s, pos, i)),
                ),
                fs,
                0,
                zero_record(),
            ) == Ok::<PointRecord, ReadError>(res[acc.len() + i]),
    decreases count,
{
    if count > 0 {
        let ts = tokens_in(s, pos, line_content_end(s, pos));
        let r0 = decode_ascii_row(s, ts, fs, 0, zero_record()).unwrap();
        lemma_ascii_rows_fidelity(
            s,
            next_line_pos(s, pos),
            count - 1,
            fs,
            acc.push(r0),
            res,
            p2,
        );
        assert forall|i: int|
            0 <= i < count implies decode_ascii_row(
            s,
            tokens_in(
                s,
                ascii_row_pos(s, pos, i),
                line_content_end(s, ascii_row_pos(s, pos, i)),
            ),
            fs,
            0,
            zero_record(),
        ) == Ok::<PointRecord, ReadError>(res[acc.len() + i]) by {
            if i == 0 {
                assert(ascii_row_pos(s, pos, 0) == pos);
                assert(res[acc.len() as int] == acc.push(r0)[acc.len() as int]);
            } else {
                lemma_ascii_row_pos_shift(s, pos, i - 1);
            }
        }
    }
}

/// Rows counted from the next line are the later rows of this position.
pub proof fn lemma_ascii_row_pos_shift(s: Seq<u8>, pos: int, i: int)
    requires
        i >= 0,
    ensures
        ascii_row_pos(s, next_line_pos(s, pos), i) == ascii_row_pos(s, pos, i + 1),
    decreases i,
{
    let nx = next_line_pos(s, pos);
    if i > 0 {
        lemma_ascii_row_pos_shift(s, pos, i - 1);
        assert(ascii_row_pos(s, nx, i) == next_line_pos(s, ascii_row_pos(s, nx, i - 1)));
        assert(ascii_row_pos(s, pos, i + 1) == next_line_pos(s, ascii_row_pos(s, pos, i)));
    } else {
        assert(ascii_row_pos(s, nx, 0) == nx);
        assert(ascii_row_pos(s, pos, 1) == next_line_pos(s, ascii_row_pos(s, pos, 0)));
    }
}

/// Round-trip count: when a load succeeds on a header declaring a single
/// `vertex` element with count `n`, it yields exactly `n` records.
pub proof fn lemma_round_trip_count(s: Seq<u8>, h: SpecHeader, recs: Seq<PointRecord>)
    requires
        parse_header(s) == Ok::<SpecHeader, ReadError>(h),
        spec_load(s) == Ok::<Seq<PointRecord>, ReadError>(recs),
        h.elements.len() == 1,
        h.elements[0].name == kw_vertex(),
    ensures
        recs.len() == h.elements[0].count,
{
    lemma_header_counts_nonneg(s, next_line_pos(s, 0), None, Seq::empty(), h);
    let e = h.elements[0];
    let fs = fields_of_props(e.props);
    assert(all_props_known(e.props));
    match h.encoding {
        Encoding::Ascii => {
            let rp = decode_ascii_rows(s, h.payload_start, e.count, fs, Seq::empty());
            assert(rp is Ok);
            lemma_ascii_rows_fidelity(
                s,
                h.payload_start,
                e.count,
                fs,
                Seq::empty(),
                rp.unwrap().0,
                rp.unwrap().1,
            );
            assert(run_payload(s, rp.unwrap().1, h.elements, 1, h.encoding, rp.unwrap().0)
                == Ok::<Seq<PointRecord>, ReadError>(rp.unwrap().0));
        },
        _ => {
            let size = fields_size(fs, fs.len() as int);
            let dbr = decode_bin_records(s, h.payload_start, fs, e.count, h.encoding);
            let p2 = h.payload_start + e.count * size;
            assert(run_payload(s, p2, h.elements, 1, h.encoding, dbr) == Ok::<
                Seq<PointRecord>,
                ReadError,
            >(dbr));
            assert(recs == dbr);
            assert(recs.len() == e.count as nat);
        },
    }
}

/// Schema fidelity for text payloads: record `i` of a successful
/// single-element load is the decode of payload row `i`, token by token.
pub proof fn lemma_schema_fidelity_text(s: Seq<u8>, h: SpecHeader, recs: Seq<PointRecord>, i: int)
    requires
        parse_header(s) == Ok::<SpecHeader, ReadError>(h),
        spec_load(s) == Ok::<Seq<PointRecord>, ReadError>(recs),
        h.elements.len() == 1,
        h.elements[0].name == kw_vertex(),
        h.encoding == Encoding::Ascii,
        0 <= i < recs.len(),
    ensures
        ({
            let rp = ascii_row_pos(s, h.payload_start, i);
            decode_ascii_row(
                s,
                tokens_in(s, rp, line_content_end(s, rp)),
                fields_of_props(h.elements[0].props),
                0,
                zero_record(),
            ) == Ok::<PointRecord, ReadError>(recs[i])
        }),
{
    lemma_header_counts_nonneg(s, next_line_pos(s, 0), None, Seq::empty(), h);
    let e = h.elements[0];
    let fs = fields_of_props(e.props);
    let rp = decode_ascii_rows(s, h.payload_start, e.count, fs, Seq::empty());
    assert(rp is Ok);
    lemma_ascii_rows_fidelity(
        s,
        h.payload_start,
        e.count,
        fs,
        Seq::empty(),
        rp.unwrap().0,
        rp.unwrap().1,
    );
    assert(run_payload(s, rp.unwrap().1, h.elements, 1, h.encoding, rp.unwrap().0) == Ok::<
        Seq<PointRecord>,
        ReadError,
    >(rp.unwrap().0));
}

/// Schema fidelity for binary payloads: record `i` of a successful
/// single-element load is the decode of the fixed-size chunk `i`.
pub proof fn lemma_schema_fidelity_binary(s: Seq<u8>, h: SpecHeader, recs: Seq<PointRecord>, i: int)
    requires
        parse_header(s) == Ok::<SpecHeader, ReadError>(h),
        spec_load(s) == Ok::<Seq<PointRecord>, ReadError>(recs),
        h.elements.len() == 1,
        h.elements[0].name == kw_vertex(),
        h.encoding != Encoding::Ascii,
        0 <= i < recs.len(),
    ensures
        ({
            let fs = fields_of_props(h.elements[0].props);
            let size = fields_size(fs, fs.len() as int);
            recs[i] == decode_bin_record(
                s,
                h.payload_start + i * size,
                fs,
                0,
                zero_record(),
                h.encoding,
            )
        }),
{
    let e = h.elements[0];
    let fs = fields_of_props(e.props);
    let size = fields_size(fs, fs.len() as int);
    let dbr = decode_bin_records(s, h.payload_start, fs, e.count, h.encoding);
    let p2 = h.payload_start + e.count * size;
    assert(run_payload(s, p2, h.elements, 1, h.encoding, dbr) == Ok::<
        Seq<PointRecord>,
        ReadError,
    >(dbr));
    assert(recs == dbr);
}

/// Fatal on unknown property: a header whose vertex element declares any
/// property outside the fixed nine-field schema makes the whole load fail
/// with `UnexpectedProperty` — never a silently dropped field — whether or
/// not any record follows.
pub proof fn lemma_fatal_on_unknown_property(s: Seq<u8>, h: SpecHeader, k: int)
    requires
        parse_header(s) == Ok::<SpecHeader, ReadError>(h),
        h.elements.len() >= 1,
        h.elements[0].name == kw_vertex(),
        0 <= k < h.elements[0].props.len(),
        field_of(h.elements[0].props[k].name, h.elements[0].props[k].ty) is None,
    ensures
        spec_load(s) == Err::<Seq<PointRecord>, ReadError>(ReadError::UnexpectedProperty),
{
    assert(!all_props_known(h.elements[0].props));
}

} // verus!
