use vstd::prelude::*;

use crate::puzzle::PuzzleSolution;

verus! {

/// The decimal rendering of `n`, most significant digit first, as
/// ASCII bytes.
pub open spec fn dec_of(n: nat) -> Seq<u8>
    decreases n,
{
    if n < 10 {
        seq![(48 + n) as u8]
    } else {
        dec_of(n / 10).push((48 + n % 10) as u8)
    }
}

/// Renders `n` in decimal, as its ASCII bytes.
pub fn u64_to_dec(n: u64) -> (r: Vec<u8>)
    ensures
        r@ == dec_of(n as nat),
    decreases n,
{
    if n < 10 {
        let d: u8 = 48 + (n as u8);
        let mut v: Vec<u8> = Vec::new();
        v.push(d);
        proof {
            assert(v@ =~= dec_of(n as nat));
        }
        v
    } else {
        let mut v = u64_to_dec(n / 10);
        let d: u8 = 48 + ((n % 10) as u8);
        v.push(d);
        proof {
            assert(v@ =~= dec_of(n as nat));
        }
        v
    }
}

/// Every digit of `dec_of(n)` is an ASCII decimal digit.
pub proof fn lemma_dec_of_digits(n: nat)
    ensures
        dec_of(n).len() >= 1,
        forall|i: int| 0 <= i < dec_of(n).len() ==> 48 <= #[trigger] dec_of(n)[i] <= 57,
    decreases n,
{
    if n >= 10 {
        lemma_dec_of_digits(n / 10);
        assert forall|i: int| 0 <= i < dec_of(n).len() implies 48 <= #[trigger] dec_of(n)[i]
            <= 57 by {
            if i < dec_of(n / 10).len() {
                assert(dec_of(n)[i] == dec_of(n / 10)[i]);
            }
        }
    }
}

/// Distinct numbers have distinct decimal renderings.
pub proof fn lemma_dec_of_injective(a: nat, b: nat)
    requires
        dec_of(a) == dec_of(b),
    ensures
        a == b,
    decreases a,
{
    lemma_dec_of_digits(a);
    lemma_dec_of_digits(b);
    if a < 10 && b < 10 {
        assert(dec_of(a)[0] == dec_of(b)[0]);
        assert((48 + a) as u8 == 48 + a);
        assert((48 + b) as u8 == 48 + b);
    } else if a >= 10 && b >= 10 {
        assert(dec_of(a) == dec_of(a / 10).push((48 + a % 10) as u8));
        assert(dec_of(b) == dec_of(b / 10).push((48 + b % 10) as u8));
        assert(dec_of(a).last() == dec_of(b).last());
        assert(dec_of(a / 10).push((48 + a % 10) as u8).last() == (48 + a % 10) as u8);
        assert(dec_of(b / 10).push((48 + b % 10) as u8).last() == (48 + b % 10) as u8);
        assert((48 + a % 10) as u8 == 48 + a % 10);
        assert((48 + b % 10) as u8 == 48 + b % 10);
        assert(a % 10 == b % 10);
        assert(dec_of(a).drop_last() =~= dec_of(a / 10));
        assert(dec_of(b).drop_last() =~= dec_of(b / 10));
        lemma_dec_of_injective(a / 10, b / 10);
        assert(a == 10 * (a / 10) + a % 10);
        assert(b == 10 * (b / 10) + b % 10);
    } else if a < 10 && b >= 10 {
        lemma_dec_of_digits(b / 10);
        assert(dec_of(b).len() == dec_of(b / 10).len() + 1);
        assert(dec_of(a).len() == 1);
        assert(false);
    } else {
        lemma_dec_of_digits(a / 10);
        assert(dec_of(a).len() == dec_of(a / 10).len() + 1);
        assert(dec_of(b).len() == 1);
        assert(false);
    }
}

/// The bytes of the record's `peer_id` field label, separator included.
pub open spec fn lbl_peer_id() -> Seq<u8> {
    seq![123u8, 34u8, 112u8, 101u8, 101u8, 114u8, 95u8, 105u8, 100u8, 34u8, 58u8]
}

/// The bytes of the record's `key_block` field label, separator included.
pub open spec fn lbl_key_block() -> Seq<u8> {
    seq![44u8, 34u8, 107u8, 101u8, 121u8, 95u8, 98u8, 108u8, 111u8, 99u8, 107u8, 34u8, 58u8]
}

/// The bytes of the record's `signed_context` field label, separator included.
pub open spec fn lbl_signed_context() -> Seq<u8> {
    seq![44u8, 34u8, 115u8, 105u8, 103u8, 110u8, 101u8, 100u8, 95u8, 99u8, 111u8, 110u8, 116u8, 101u8, 120u8, 116u8, 34u8, 58u8]
}

/// The bytes of the record's `thread_name` field label, separator included.
pub open spec fn lbl_thread_name() -> Seq<u8> {
    seq![44u8, 34u8, 116u8, 104u8, 114u8, 101u8, 97u8, 100u8, 95u8, 110u8, 97u8, 109u8, 101u8, 34u8, 58u8]
}

/// The bytes of the record's `nonce` field label, separator included.
pub open spec fn lbl_nonce() -> Seq<u8> {
    seq![44u8, 34u8, 110u8, 111u8, 110u8, 99u8, 101u8, 34u8, 58u8]
}

/// The bytes of the record's `signed_nonce` field label, separator included.
pub open spec fn lbl_signed_nonce() -> Seq<u8> {
    seq![44u8, 34u8, 115u8, 105u8, 103u8, 110u8, 101u8, 100u8, 95u8, 110u8, 111u8, 110u8, 99u8, 101u8, 34u8, 58u8]
}

/// The bytes of the record's `hash` field label, separator included.
pub open spec fn lbl_hash() -> Seq<u8> {
    seq![44u8, 34u8, 104u8, 97u8, 115u8, 104u8, 34u8, 58u8]
}

/// The bytes of the record's `difficulty` field label, separator included.
pub open spec fn lbl_difficulty() -> Seq<u8> {
    seq![44u8, 34u8, 100u8, 105u8, 102u8, 102u8, 105u8, 99u8, 117u8, 108u8, 116u8, 121u8, 34u8, 58u8]
}

fn lbl_peer_id_vec() -> (v: Vec<u8>)
    ensures
        v@ == lbl_peer_id(),
{
    let mut v: Vec<u8> = Vec::new();
    v.push(123);
    v.push(34);
    v.push(112);
    v.push(101);
    v.push(101);
    v.push(114);
    v.push(95);
    v.push(105);
    v.push(100);
    v.push(34);
    v.push(58);
    proof {
        assert(v@ =~= lbl_peer_id());
    }
    v
}

fn lbl_key_block_vec() -> (v: Vec<u8>)
    ensures
        v@ == lbl_key_block(),
{
    let mut v: Vec<u8> = Vec::new();
    v.push(44);
    v.push(34);
    v.push(107);
    v.push(101);
    v.push(121);
    v.push(95);
    v.push(98);
    v.push(108);
    v.push(111);
    v.push(99);
    v.push(107);
    v.push(34);
    v.push(58);
    proof {
        assert(v@ =~= lbl_key_block());
    }
    v
}

fn lbl_signed_context_vec() -> (v: Vec<u8>)
    ensures
        v@ == lbl_signed_context(),
{
    let mut v: Vec<u8> = Vec::new();
    v.push(44);
    v.push(34);
    v.push(115);
    v.push(105);
    v.push(103);
    v.push(110);
    v.push(101);
    v.push(100);
    v.push(95);
    v.push(99);
    v.push(111);
    v.push(110);
    v.push(116);
    v.push(101);
    v.push(120);
    v.push(116);
    v.push(34);
    v.push(58);
    proof {
        assert(v@ =~= lbl_signed_context());
    }
    v
}

fn lbl_thread_name_vec() -> (v: Vec<u8>)
    ensures
        v@ == lbl_thread_name(),
{
    let mut v: Vec<u8> = Vec::new();
    v.push(44);
    v.push(34);
    v.push(116);
    v.push(104);
    v.push(114);
    v.push(101);
    v.push(97);
    v.push(100);
    v.push(95);
    v.push(110);
    v.push(97);
    v.push(109);
    v.push(101);
    v.push(34);
    v.push(58);
    proof {
        assert(v@ =~= lbl_thread_name());
    }
    v
}

fn lbl_nonce_vec() -> (v: Vec<u8>)
    ensures
        v@ == lbl_nonce(),
{
    let mut v: Vec<u8> = Vec::new();
    v.push(44);
    v.push(34);
    v.push(110);
    v.push(111);
    v.push(110);
    v.push(99);
    v.push(101);
    v.push(34);
    v.push(58);
    proof {
        assert(v@ =~= lbl_nonce());
    }
    v
}

fn lbl_signed_nonce_vec() -> (v: Vec<u8>)
    ensures
        v@ == lbl_signed_nonce(),
{
    let mut v: Vec<u8> = Vec::new();
    v.push(44);
    v.push(34);
    v.push(115);
    v.push(105);
    v.push(103);
    v.push(110);
    v.push(101);
    v.push(100);
    v.push(95);
    v.push(110);
    v.push(111);
    v.push(110);
    v.push(99);
    v.push(101);
    v.push(34);
    v.push(58);
    proof {
        assert(v@ =~= lbl_signed_nonce());
    }
    v
}

fn lbl_hash_vec() -> (v: Vec<u8>)
    ensures
        v@ == lbl_hash(),
{
    let mut v: Vec<u8> = Vec::new();
    v.push(44);
    v.push(34);
    v.push(104);
    v.push(97);
    v.push(115);
    v.push(104);
    v.push(34);
    v.push(58);
    proof {
        assert(v@ =~= lbl_hash());
    }
    v
}

fn lbl_difficulty_vec() -> (v: Vec<u8>)
    ensures
        v@ == lbl_difficulty(),
{
    let mut v: Vec<u8> = Vec::new();
    v.push(44);
    v.push(34);
    v.push(100);
    v.push(105);
    v.push(102);
    v.push(102);
    v.push(105);
    v.push(99);
    v.push(117);
    v.push(108);
    v.push(116);
    v.push(121);
    v.push(34);
    v.push(58);
    proof {
        assert(v@ =~= lbl_difficulty());
    }
    v
}


/// The comma-separated decimal items of a byte array rendering.
pub open spec fn arr_items(s: Seq<u8>) -> Seq<u8>
    decreases s.len(),
{
    if s.len() == 0 {
        Seq::empty()
    } else if s.len() == 1 {
        dec_of(s[0] as nat)
    } else {
        dec_of(s[0] as nat) + seq![44u8] + arr_items(s.drop_first())
    }
}

/// A byte field's rendering in the record: its bytes as decimal
/// numbers, comma separated, in brackets.
pub open spec fn bytes_array_of(s: Seq<u8>) -> Seq<u8> {
    seq![91u8] + arr_items(s) + seq![93u8]
}

/// The self-describing record a solution is written as: every field of
/// the solution, in declaration order, with byte fields as byte arrays.
pub open spec fn json_of(sol: PuzzleSolution) -> Seq<u8> {
    lbl_peer_id() + bytes_array_of(sol.peer_id@) + lbl_key_block() + dec_of(
        sol.key_block as nat,
    ) + lbl_signed_context() + bytes_array_of(sol.signed_context@) + lbl_thread_name()
        + bytes_array_of(sol.thread_name@) + lbl_nonce() + bytes_array_of(sol.nonce@)
        + lbl_signed_nonce() + bytes_array_of(sol.signed_nonce@) + lbl_hash() + bytes_array_of(
        sol.hash@,
    ) + lbl_difficulty() + dec_of(sol.difficulty as nat) + seq![125u8]
}

/// Appending one more byte to a nonempty array appends one more
/// comma-separated decimal item.
pub proof fn lemma_arr_items_push(s: Seq<u8>, e: u8)
    requires
        s.len() >= 1,
    ensures
        arr_items(s.push(e)) == arr_items(s) + seq![44u8] + dec_of(e as nat),
    decreases s.len(),
{
    if s.len() == 1 {
        assert(s.push(e)[0] == s[0]);
        assert(s.push(e).drop_first() =~= seq![e]);
        assert(arr_items(seq![e]) == dec_of(e as nat));
        assert(arr_items(s.push(e)) =~= arr_items(s) + seq![44u8] + dec_of(e as nat));
    } else {
        assert(s.push(e)[0] == s[0]);
        assert(s.push(e).drop_first() =~= s.drop_first().push(e));
        lemma_arr_items_push(s.drop_first(), e);
        assert(arr_items(s.push(e)) =~= arr_items(s) + seq![44u8] + dec_of(e as nat));
    }
}

/// Appends `src` to `dst`.
fn append_vec(dst: &mut Vec<u8>, src: &Vec<u8>)
    ensures
        final(dst)@ == old(dst)@ + src@,
{
    let mut i: usize = 0;
    while i < src.len()
        invariant
            i <= src@.len(),
            dst@ =~= old(dst)@ + src@.take(i as int),
        decreases src@.len() - i,
    {
        dst.push(src[i]);
        i = i + 1;
        proof {
            assert(dst@ =~= old(dst)@ + src@.take(i as int));
        }
    }
    proof {
        assert(src@.take(src@.len() as int) =~= src@);
    }
}

/// Appends the decimal rendering of `n` to `dst`.
fn append_dec(dst: &mut Vec<u8>, n: u64)
    ensures
        final(dst)@ == old(dst)@ + dec_of(n as nat),
{
    let d = u64_to_dec(n);
    append_vec(dst, &d);
}

/// Renders a byte field as its record form.
fn bytes_array_vec(s: &Vec<u8>) -> (r: Vec<u8>)
    ensures
        r@ == bytes_array_of(s@),
{
    let mut r: Vec<u8> = Vec::new();
    r.push(91);
    if s.len() > 0 {
        append_dec(&mut r, s[0] as u64);
        proof {
            assert(s@.take(1) =~= seq![s@[0]]);
            assert(arr_items(s@.take(1)) == dec_of(s@[0] as nat));
            assert(r@ =~= seq![91u8] + arr_items(s@.take(1)));
        }
        let mut i: usize = 1;
        while i < s.len()
            invariant
                1 <= i <= s@.len(),
                r@ =~= seq![91u8] + arr_items(s@.take(i as int)),
            decreases s@.len() - i,
        {
            r.push(44);
            append_dec(&mut r, s[i] as u64);
            proof {
                lemma_arr_items_push(s@.take(i as int), s@[i as int]);
                assert(s@.take(i as int + 1) =~= s@.take(i as int).push(s@[i as int]));
                assert(r@ =~= seq![91u8] + arr_items(s@.take(i as int + 1)));
            }
            i = i + 1;
        }
        proof {
            assert(s@.take(s@.len() as int) =~= s@);
        }
    } else {
        proof {
            assert(arr_items(s@) =~= Seq::<u8>::empty());
        }
    }
    r.push(93);
    proof {
        assert(r@ =~= bytes_array_of(s@));
    }
    r
}

/// Renders a solution as its record: the bytes later written to its
/// file under the solution's path.
pub fn solution_json_bytes(sol: &PuzzleSolution) -> (r: Vec<u8>)
    ensures
        r@ == json_of(*sol),
{
    let mut r = lbl_peer_id_vec();
    let a1 = bytes_array_vec(&sol.peer_id);
    append_vec(&mut r, &a1);
    let l2 = lbl_key_block_vec();
    append_vec(&mut r, &l2);
    append_dec(&mut r, sol.key_block);
    let l3 = lbl_signed_context_vec();
    append_vec(&mut r, &l3);
    let a3 = bytes_array_vec(&sol.signed_context);
    append_vec(&mut r, &a3);
    let l4 = lbl_thread_name_vec();
    append_vec(&mut r, &l4);
    let a4 = bytes_array_vec(&sol.thread_name);
    append_vec(&mut r, &a4);
    let l5 = lbl_nonce_vec();
    append_vec(&mut r, &l5);
    let a5 = bytes_array_vec(&sol.nonce);
    append_vec(&mut r, &a5);
    let l6 = lbl_signed_nonce_vec();
    append_vec(&mut r, &l6);
    let a6 = bytes_array_vec(&sol.signed_nonce);
    append_vec(&mut r, &a6);
    let l7 = lbl_hash_vec();
    append_vec(&mut r, &l7);
    let a7 = bytes_array_vec(&sol.hash);
    append_vec(&mut r, &a7);
    let l8 = lbl_difficulty_vec();
    append_vec(&mut r, &l8);
    append_dec(&mut r, sol.difficulty as u64);
    r.push(125);
    proof {
        assert(r@ =~= json_of(*sol));
    }
    r
}


/// Matches `pat` at `pos` in `input`; on success the span is exactly
/// the pattern.
fn match_at(input: &Vec<u8>, pos: usize, pat: &Vec<u8>) -> (r: Option<usize>)
    ensures
        (r matches Some(end) ==> {
            &&& pos <= end <= input@.len()
            &&& end == pos + pat@.len()
            &&& input@.subrange(pos as int, end as int) == pat@
        }),
        (pos + pat@.len() <= input@.len() && input@.subrange(
            pos as int,
            pos as int + pat@.len() as int,
        ) == pat@) ==> r == Some((pos + pat@.len()) as usize),
{
    if pos > input.len() || input.len() - pos < pat.len() {
        return None;
    }
    let mut i: usize = 0;
    while i < pat.len()
        invariant
            i <= pat@.len(),
            pos + pat@.len() <= input@.len(),
            input@.len() <= usize::MAX,
            forall|k: int| 0 <= k < i ==> input@[pos + k] == pat@[k],
        decreases pat@.len() - i,
    {
        proof {
            assert(pos + i < input@.len());
        }
        if input[pos + i] != pat[i] {
            proof {
                if input@.subrange(pos as int, pos as int + pat@.len() as int) == pat@ {
                    assert(input@.subrange(pos as int, pos as int + pat@.len() as int)[i as int]
                        == input@[pos + i]);
                    assert(false);
                }
            }
            return None;
        }
        i = i + 1;
    }
    proof {
        assert(input@.subrange(pos as int, (pos + pat@.len()) as int) =~= pat@);
    }
    Some(pos + pat.len())
}

/// The numeric value of a big-endian ASCII digit string.
spec fn val_of(s: Seq<u8>) -> int
    decreases s.len(),
{
    if s.len() == 0 {
        0
    } else {
        val_of(s.drop_last()) * 10 + (s.last() - 48)
    }
}

/// The decimal rendering evaluates back to its number.
proof fn lemma_val_dec(n: nat)
    ensures
        val_of(dec_of(n)) == n,
    decreases n,
{
    if n < 10 {
        assert(dec_of(n) == seq![(48 + n) as u8]);
        assert(dec_of(n).len() == 1);
        assert(dec_of(n).last() == (48 + n) as u8);
        assert(dec_of(n).drop_last() =~= Seq::<u8>::empty());
        assert(val_of(Seq::<u8>::empty()) == 0);
        assert(val_of(dec_of(n)) == val_of(dec_of(n).drop_last()) * 10 + (dec_of(n).last()
            - 48));
        assert((48 + n) as u8 == 48 + n);
    } else {
        lemma_val_dec(n / 10);
        lemma_dec_of_digits(n);
        assert(dec_of(n).drop_last() =~= dec_of(n / 10));
        assert(dec_of(n).last() == (48 + n % 10) as u8);
        assert(val_of(dec_of(n)) == val_of(dec_of(n).drop_last()) * 10 + (dec_of(n).last()
            - 48));
        assert((48 + n % 10) as u8 == 48 + n % 10);
        assert(n == 10 * (n / 10) + n % 10);
    }
}

/// A prefix of a decimal rendering evaluates to at most the number.
proof fn lemma_val_take_le(n: nat, j: int)
    requires
        0 <= j <= dec_of(n).len(),
    ensures
        0 <= val_of(dec_of(n).take(j)) <= n,
    decreases dec_of(n).len() - j,
{
    lemma_dec_of_digits(n);
    if j == dec_of(n).len() {
        assert(dec_of(n).take(j) =~= dec_of(n));
        lemma_val_dec(n);
    } else {
        lemma_val_take_le(n, j + 1);
        assert(dec_of(n).take(j + 1).drop_last() =~= dec_of(n).take(j));
        assert(dec_of(n).take(j + 1).last() == dec_of(n)[j]);
        let v = val_of(dec_of(n).take(j));
        let e = dec_of(n)[j] - 48;
        assert(0 <= e <= 9);
        assert(val_of(dec_of(n).take(j + 1)) == v * 10 + e);
        assert(v >= 0);
    }
}

/// A number of at least one never renders with a leading zero digit.
proof fn lemma_dec_of_first(n: nat)
    requires
        n >= 1,
    ensures
        49 <= dec_of(n)[0] <= 57,
    decreases n,
{
    if n < 10 {
        assert((48 + n) as u8 == 48 + n);
    } else {
        lemma_dec_of_first(n / 10);
        lemma_dec_of_digits(n / 10);
        assert(dec_of(n)[0] == dec_of(n / 10)[0]);
    }
}

/// The parser's completeness hypothesis: the input from `pos` on reads
/// as the rendering of `n` followed by `rest`, which does not continue
/// the digits.
spec fn dec_at(input: Seq<u8>, pos: int, n: u64, rest: Seq<u8>) -> bool {
    &&& 0 <= pos <= input.len()
    &&& input.skip(pos) == dec_of(n as nat) + rest
    &&& (rest.len() == 0 || !(48 <= rest[0] <= 57))
}

/// Parses a decimal number at `pos`. On success the span is exactly
/// the canonical decimal rendering of the value, extending to the
/// first non-digit; and wherever a rendering followed by a non-digit
/// stands, parsing succeeds and returns exactly that number.
fn parse_dec_u64(input: &Vec<u8>, pos: usize) -> (r: Option<(u64, usize)>)
    ensures
        (r matches Some(p) ==> {
            &&& pos < p.1 <= input@.len()
            &&& input@.subrange(pos as int, p.1 as int) == dec_of(p.0 as nat)
            &&& (p.1 == input@.len() || !(48 <= input@[p.1 as int] <= 57))
        }),
        (forall|n: u64, rest: Seq<u8>|
            dec_at(input@, pos as int, n, rest) ==> r == Some(
                (n, (pos + dec_of(n as nat).len()) as usize),
            )),
{
    if pos >= input.len() {
        proof {
            assert forall|n: u64, rest: Seq<u8>|
                dec_at(input@, pos as int, n, rest) implies false by {
                lemma_dec_of_digits(n as nat);
                assert(input@.skip(pos as int).len() == 0);
                assert((dec_of(n as nat) + rest).len() >= 1);
            }
        }
        return None;
    }
    let b0 = input[pos];
    if b0 < 48 || b0 > 57 {
        proof {
            assert forall|n: u64, rest: Seq<u8>|
                dec_at(input@, pos as int, n, rest) implies false by {
                lemma_dec_of_digits(n as nat);
                assert(input@.skip(pos as int)[0] == input@[pos as int]);
                assert((dec_of(n as nat) + rest)[0] == dec_of(n as nat)[0]);
            }
        }
        return None;
    }
    if b0 == 48 {
        if pos + 1 < input.len() {
            let b1 = input[pos + 1];
            if 48 <= b1 && b1 <= 57 {
                proof {
                    assert forall|n: u64, rest: Seq<u8>|
                        dec_at(input@, pos as int, n, rest) implies false by {
                        assert(input@.skip(pos as int)[0] == input@[pos as int]);
                        assert((dec_of(n as nat) + rest)[0] == dec_of(n as nat)[0]);
                        if n >= 1 {
                            lemma_dec_of_first(n as nat);
                        }
                        assert(n == 0);
                        assert(dec_of(0).len() == 1);
                        assert(input@.skip(pos as int).len() >= 2);
                        assert(rest.len() >= 1);
                        assert(input@.skip(pos as int)[1] == input@[pos as int + 1]);
                        assert((dec_of(n as nat) + rest)[1] == rest[0]);
                    }
                }
                return None;
            }
        }
        proof {
            assert(input@.subrange(pos as int, pos as int + 1) =~= seq![48u8]);
            assert(dec_of(0) =~= seq![48u8]);
            assert forall|n: u64, rest: Seq<u8>|
                dec_at(input@, pos as int, n, rest) implies n == 0 && dec_of(n as nat).len()
                == 1 by {
                assert(input@.skip(pos as int)[0] == input@[pos as int]);
                assert((dec_of(n as nat) + rest)[0] == dec_of(n as nat)[0]);
                if n >= 1 {
                    lemma_dec_of_first(n as nat);
                }
                assert(dec_of(0).len() == 1);
            }
        }
        return Some((0, pos + 1));
    }
    let mut acc: u64 = (b0 - 48) as u64;
    let mut i: usize = pos + 1;
    proof {
        assert(input@.subrange(pos as int, pos as int + 1) =~= seq![b0]);
        assert(dec_of(acc as nat) =~= seq![b0]);
    }
    while i < input.len()
        invariant
            pos < i <= input@.len(),
            1 <= acc,
            input@.subrange(pos as int, i as int) == dec_of(acc as nat),
        decreases input@.len() - i,
    {
        let b = input[i];
        if b < 48 || b > 57 {
            proof {
                assert forall|n: u64, rest: Seq<u8>|
                    dec_at(input@, pos as int, n, rest) implies acc == n && i as int == pos
                    + dec_of(n as nat).len() by {
                    lemma_parse_dec_stop(input@, pos as int, i as int, acc, n, rest);
                }
            }
            return Some((acc, i));
        }
        let d = (b - 48) as u64;
        if acc > (u64::MAX - d) / 10 {
            proof {
                assert forall|n: u64, rest: Seq<u8>|
                    dec_at(input@, pos as int, n, rest) implies false by {
                    lemma_dec_of_digits(n as nat);
                    lemma_dec_of_digits(acc as nat);
                    let sfx = input@.skip(pos as int);
                    let dn = dec_of(n as nat);
                    let ll = dn.len() as int;
                    let k = i as int - pos as int;
                    assert(sfx[k] == input@[i as int]);
                    if k > ll {
                        assert(rest.len() > 0);
                        assert(dec_of(acc as nat)[ll] == input@.subrange(pos as int, i as int)[ll]);
                        assert(sfx[ll] == input@[pos + ll]);
                        assert((dn + rest)[ll] == rest[0]);
                        assert(false);
                    } else if k == ll {
                        assert(rest.len() > 0);
                        assert((dn + rest)[k] == rest[0]);
                        assert(false);
                    } else {
                        assert forall|j: int| 0 <= j < k implies input@.subrange(
                            pos as int,
                            i as int,
                        )[j] == dn.take(k)[j] by {
                            assert(sfx[j] == input@[pos + j]);
                            assert((dn + rest)[j] == dn[j]);
                        }
                        assert(dec_of(acc as nat) =~= dn.take(k));
                        lemma_val_dec(acc as nat);
                        assert(dn.take(k + 1).drop_last() =~= dn.take(k));
                        assert(dn.take(k + 1).last() == dn[k]);
                        assert(sfx[k] == (dn + rest)[k]);
                        assert(dn[k] == b);
                        lemma_val_take_le(n as nat, k + 1);
                        assert(val_of(dn.take(k + 1)) == val_of(dn.take(k)) * 10 + (b - 48));
                        assert(val_of(dn.take(k)) == acc);
                        assert(acc * 10 + d <= n);
                        assert(acc >= (u64::MAX - d) / 10 + 1);
                        assert((u64::MAX - d) / 10 * 10 + 9 >= u64::MAX - d);
                        assert(acc * 10 + d > u64::MAX);
                        assert(false);
                    }
                }
            }
            return None;
        }
        let ghost pre = acc;
        acc = acc * 10 + d;
        i = i + 1;
        proof {
            assert(acc >= 10);
            assert(acc as nat / 10 == pre as nat);
            assert(acc as nat % 10 == d as nat);
            assert(dec_of(acc as nat) == dec_of(pre as nat).push((48 + d) as u8));
            assert((48 + d) as u8 == b);
            assert(input@.subrange(pos as int, i as int) =~= input@.subrange(
                pos as int,
                i as int - 1,
            ).push(input@[i as int - 1]));
        }
    }
    proof {
        assert forall|n: u64, rest: Seq<u8>|
            dec_at(input@, pos as int, n, rest) implies acc == n && i as int == pos + dec_of(
            n as nat,
        ).len() by {
            lemma_parse_dec_stop(input@, pos as int, i as int, acc, n, rest);
        }
    }
    Some((acc, i))
}

/// When the digit run ends at `i` — the byte there is no digit, or the
/// input does — the accumulated number is the one the input renders.
proof fn lemma_parse_dec_stop(input: Seq<u8>, pos: int, i: int, acc: u64, n: u64, rest: Seq<u8>)
    requires
        0 <= pos < i <= input.len(),
        input.subrange(pos, i) == dec_of(acc as nat),
        i == input.len() || !(48 <= input[i] <= 57),
        dec_at(input, pos, n, rest),
    ensures
        acc == n,
        i == pos + dec_of(n as nat).len(),
{
    lemma_dec_of_digits(n as nat);
    lemma_dec_of_digits(acc as nat);
    let sfx = input.skip(pos);
    let dn = dec_of(n as nat);
    let ll = dn.len() as int;
    let k = i - pos;
    assert(sfx.len() == ll + rest.len());
    if k < ll {
        assert(sfx[k] == input[pos + k]);
        assert((dn + rest)[k] == dn[k]);
        assert(48 <= dn[k] <= 57);
        assert(i < input.len());
        assert(false);
    } else if k > ll {
        assert(rest.len() > 0);
        assert(dec_of(acc as nat)[ll] == input.subrange(pos, i)[ll]);
        assert(sfx[ll] == input[pos + ll]);
        assert((dn + rest)[ll] == rest[0]);
        assert(48 <= dec_of(acc as nat)[ll] <= 57);
        assert(false);
    } else {
        assert forall|j: int| 0 <= j < k implies input.subrange(pos, i)[j] == dn[j] by {
            assert(sfx[j] == input[pos + j]);
            assert((dn + rest)[j] == dn[j]);
        }
        assert(dec_of(acc as nat) =~= dn);
        lemma_dec_of_injective(acc as nat, n as nat);
    }
}

/// The completeness hypothesis for the array parser: the input from
/// `pos` on reads as the rendering of the byte array `bs` followed by
/// `rest`.
spec fn arr_at(input: Seq<u8>, pos: int, bs: Seq<u8>, rest: Seq<u8>) -> bool {
    &&& 0 <= pos <= input.len()
    &&& input.skip(pos) == bytes_array_of(bs) + rest
}

/// Where each byte of an array rendering stands in the input.
proof fn lemma_arr_at_index(input: Seq<u8>, pos: int, bs: Seq<u8>, rest: Seq<u8>)
    requires
        arr_at(input, pos, bs, rest),
    ensures
        input.len() == pos + 2 + arr_items(bs).len() + rest.len(),
        input[pos] == 91,
        forall|j: int|
            0 <= j < arr_items(bs).len() ==> input[pos + 1 + j] == #[trigger] arr_items(bs)[j],
        input[pos + 1 + arr_items(bs).len()] == 93,
{
    let sfx = input.skip(pos);
    let items = arr_items(bs);
    assert(sfx.len() == bytes_array_of(bs).len() + rest.len());
    assert(input[pos] == sfx[0]);
    assert(sfx[0] == (bytes_array_of(bs) + rest)[0]);
    assert forall|j: int| 0 <= j < items.len() implies input[pos + 1 + j] == #[trigger] items[j] by {
        assert(input[pos + 1 + j] == sfx[1 + j]);
        assert(sfx[1 + j] == (bytes_array_of(bs) + rest)[1 + j]);
        assert(bytes_array_of(bs)[1 + j] == items[j]);
    }
    assert(input[pos + 1 + items.len()] == sfx[1 + items.len() as int]);
    assert(bytes_array_of(bs)[1 + items.len() as int] == 93);
}

/// Splitting a nonempty array's items at `m` splits the rendering at
/// the `m`-th comma.
proof fn lemma_arr_items_split(bs: Seq<u8>, m: int)
    requires
        1 <= m < bs.len(),
    ensures
        arr_items(bs) == arr_items(bs.take(m)) + seq![44u8] + arr_items(bs.skip(m)),
    decreases m,
{
    if m == 1 {
        assert(bs.take(1) =~= seq![bs[0]]);
        assert(arr_items(seq![bs[0]]) == dec_of(bs[0] as nat));
        assert(bs.skip(1) =~= bs.drop_first());
        assert(arr_items(bs) == dec_of(bs[0] as nat) + seq![44u8] + arr_items(bs.drop_first()));
    } else {
        lemma_arr_items_split(bs.drop_first(), m - 1);
        assert(bs.drop_first().take(m - 1) =~= bs.take(m).drop_first());
        assert(bs.drop_first().skip(m - 1) =~= bs.skip(m));
        assert(bs.take(m)[0] == bs[0]);
        assert(bs.take(m).len() == m);
        let a = dec_of(bs[0] as nat);
        let c = seq![44u8];
        let x = arr_items(bs.take(m).drop_first());
        let y = arr_items(bs.skip(m));
        assert(arr_items(bs) == a + c + arr_items(bs.drop_first()));
        assert(arr_items(bs.drop_first()) == x + c + y);
        assert(arr_items(bs.take(m)) == a + c + x);
        assert(a + c + (x + c + y) =~= (a + c + x) + c + y);
    }
}

/// After `m` items of `bs` have been read, the next byte is the comma
/// before item `m` — or the closing bracket when all items are read —
/// and item `m`'s decimal rendering stands right after that comma,
/// delimited by a non-digit.
proof fn lemma_arr_progress(input: Seq<u8>, pos: int, bs: Seq<u8>, rest: Seq<u8>, m: int)
    requires
        arr_at(input, pos, bs, rest),
        0 <= m <= bs.len(),
    ensures
        m == bs.len() ==> input[pos + 1 + arr_items(bs.take(m)).len()] == 93,
        (1 <= m < bs.len()) ==> input[pos + 1 + arr_items(bs.take(m)).len()] == 44,
        (1 <= m < bs.len()) ==> dec_at(
            input,
            pos + 2 + arr_items(bs.take(m)).len(),
            bs[m] as u64,
            input.skip(pos + 2 + arr_items(bs.take(m)).len() + dec_of(bs[m] as nat).len()),
        ),
        (m == 0 && bs.len() > 0) ==> dec_at(
            input,
            pos + 1,
            bs[0] as u64,
            input.skip(pos + 1 + dec_of(bs[0] as nat).len()),
        ),
        arr_items(bs.take(m)).len() <= arr_items(bs).len(),
        (1 <= m < bs.len()) ==> arr_items(bs.take(m)).len() + 1 < arr_items(bs).len(),
{
    lemma_arr_at_index(input, pos, bs, rest);
    let items = arr_items(bs);
    if m == bs.len() {
        assert(bs.take(m) =~= bs);
    } else if m == 0 {
        assert(bs.take(0) =~= Seq::<u8>::empty());
        let d0 = dec_of(bs[0] as nat);
        lemma_dec_of_digits(bs[0] as nat);
        // the items begin with item 0's rendering
        assert forall|j: int| 0 <= j < d0.len() implies items[j] == d0[j] by {
            if bs.len() == 1 {
            } else {
                assert(items == d0 + seq![44u8] + arr_items(bs.drop_first()));
            }
        }
        assert(d0.len() <= items.len());
        let t = input.skip(pos + 1 + d0.len());
        assert(input.skip(pos + 1) =~= d0 + t) by {
            assert forall|j: int| 0 <= j < input.skip(pos + 1).len() implies input.skip(pos + 1)[j]
                == (d0 + t)[j] by {
                assert(input.skip(pos + 1)[j] == input[pos + 1 + j]);
                if j < d0.len() {
                    assert(input[pos + 1 + j] == items[j]);
                } else {
                    assert((d0 + t)[j] == t[j - d0.len()]);
                    assert(t[j - d0.len()] == input[pos + 1 + d0.len() + (j - d0.len())]);
                }
            }
        }
        // the byte after item 0 is a comma or the closing bracket
        if d0.len() < items.len() {
            assert(bs.len() >= 2) by {
                if bs.len() == 1 {
                    assert(items == d0);
                }
            }
            assert(items == d0 + seq![44u8] + arr_items(bs.drop_first()));
            assert(items[d0.len() as int] == 44);
            assert(t[0] == input[pos + 1 + d0.len() as int]);
            assert(t[0] == 44);
        } else {
            assert(t[0] == input[pos + 1 + items.len() as int]);
            assert(t[0] == 93);
        }
        assert(t.len() > 0);
    } else {
        lemma_arr_items_split(bs, m);
        let a = arr_items(bs.take(m));
        let k = a.len() as int;
        let s = arr_items(bs.skip(m));
        lemma_dec_of_digits(bs[m] as nat);
        assert(items == a + seq![44u8] + s);
        assert(items[k] == 44);
        assert(input[pos + 1 + k] == 44);
        assert(bs.skip(m).len() >= 1);
        assert(bs.skip(m)[0] == bs[m]);
        let dm = dec_of(bs[m] as nat);
        // item m's rendering leads the remaining items
        assert forall|j: int| 0 <= j < dm.len() implies s[j] == dm[j] by {
            if bs.skip(m).len() == 1 {
            } else {
                assert(s == dm + seq![44u8] + arr_items(bs.skip(m).drop_first()));
            }
        }
        assert(dm.len() <= s.len());
        assert forall|j: int| 0 <= j < dm.len() implies items[k + 1 + j] == dm[j] by {
            assert(items[k + 1 + j] == s[j]);
        }
        let start = pos + 2 + k;
        let t = input.skip(start + dm.len());
        assert(input.skip(start) =~= dm + t) by {
            assert forall|j: int| 0 <= j < input.skip(start).len() implies input.skip(start)[j]
                == (dm + t)[j] by {
                assert(input.skip(start)[j] == input[start + j]);
                if j < dm.len() {
                    assert(input[pos + 1 + (k + 1 + j)] == items[k + 1 + j]);
                } else {
                    assert((dm + t)[j] == t[j - dm.len()]);
                    assert(t[j - dm.len()] == input[start + dm.len() + (j - dm.len())]);
                }
            }
        }
        // the byte after item m is a comma or the closing bracket
        if dm.len() < s.len() {
            assert(bs.skip(m).len() >= 2) by {
                if bs.skip(m).len() == 1 {
                    assert(s == dm);
                }
            }
            assert(s == dm + seq![44u8] + arr_items(bs.skip(m).drop_first()));
            assert(s[dm.len() as int] == 44);
            assert(items[k + 1 + dm.len() as int] == s[dm.len() as int]);
            assert(t[0] == input[pos + 1 + (k + 1 + dm.len() as int)]);
            assert(t[0] == 44);
        } else {
            assert(k + 1 + dm.len() == items.len());
            assert(t[0] == input[pos + 1 + items.len() as int]);
            assert(t[0] == 93);
        }
        assert(t.len() > 0);
    }
}

/// Parses a byte array at `pos`. On success the span is exactly the
/// record rendering of the returned bytes; and wherever a byte-array
/// rendering stands, parsing succeeds and returns exactly those bytes.
fn parse_bytes_array(input: &Vec<u8>, pos: usize) -> (r: Option<(Vec<u8>, usize)>)
    ensures
        (r matches Some(p) ==> {
            &&& pos < p.1 <= input@.len()
            &&& input@.subrange(pos as int, p.1 as int) == bytes_array_of(p.0@)
        }),
        (forall|bs: Seq<u8>, rest: Seq<u8>|
            #[trigger] arr_at(input@, pos as int, bs, rest) ==> (r matches Some(p) && p.0@ == bs
                && p.1 as int == pos + bytes_array_of(bs).len())),
{
    if pos >= input.len() || input[pos] != 91 {
        proof {
            assert forall|bs: Seq<u8>, rest: Seq<u8>|
                arr_at(input@, pos as int, bs, rest) implies false by {
                lemma_arr_at_index(input@, pos as int, bs, rest);
            }
        }
        return None;
    }
    if pos + 1 >= input.len() {
        proof {
            assert forall|bs: Seq<u8>, rest: Seq<u8>|
                arr_at(input@, pos as int, bs, rest) implies false by {
                lemma_arr_at_index(input@, pos as int, bs, rest);
            }
        }
        return None;
    }
    if input[pos + 1] == 93 {
        let v: Vec<u8> = Vec::new();
        proof {
            assert(input@.subrange(pos as int, pos as int + 2) =~= seq![91u8, 93u8]);
            assert(bytes_array_of(v@) =~= seq![91u8, 93u8]);
            assert forall|bs: Seq<u8>, rest: Seq<u8>|
                arr_at(input@, pos as int, bs, rest) implies (v@ == bs && pos as int + 2 == pos
                + bytes_array_of(bs).len()) by {
                lemma_arr_at_index(input@, pos as int, bs, rest);
                if bs.len() > 0 {
                    lemma_arr_progress(input@, pos as int, bs, rest, 0);
                    lemma_dec_of_digits(bs[0] as nat);
                    let t = input@.skip(pos as int + 1 + dec_of(bs[0] as nat).len() as int);
                    assert(input@.skip(pos as int + 1) == dec_of(bs[0] as nat) + t);
                    assert(input@.skip(pos as int + 1)[0] == input@[pos as int + 1]);
                    assert((dec_of(bs[0] as nat) + t)[0] == dec_of(bs[0] as nat)[0]);
                    assert(false);
                }
                assert(arr_items(bs).len() == 0);
                assert(v@ =~= bs);
            }
        }
        return Some((v, pos + 2));
    }
    let mut v: Vec<u8> = Vec::new();
    let first = match parse_dec_u64(input, pos + 1) {
        None => {
            proof {
                assert forall|bs: Seq<u8>, rest: Seq<u8>|
                    arr_at(input@, pos as int, bs, rest) implies false by {
                    lemma_arr_at_index(input@, pos as int, bs, rest);
                    if bs.len() == 0 {
                        assert(arr_items(bs).len() == 0);
                        assert(input@[pos as int + 1] == 93);
                    } else {
                        lemma_arr_progress(input@, pos as int, bs, rest, 0);
                    }
                }
            }
            return None;
        },
        Some(p) => p,
    };
    if first.0 > 255 {
        proof {
            assert forall|bs: Seq<u8>, rest: Seq<u8>|
                arr_at(input@, pos as int, bs, rest) implies false by {
                lemma_arr_at_index(input@, pos as int, bs, rest);
                if bs.len() == 0 {
                    assert(arr_items(bs).len() == 0);
                    assert(input@[pos as int + 1] == 93);
                } else {
                    lemma_arr_progress(input@, pos as int, bs, rest, 0);
                    assert(first.0 == bs[0] as u64);
                }
            }
        }
        return None;
    }
    v.push(first.0 as u8);
    let mut cur: usize = first.1;
    proof {
        assert(v@ =~= seq![first.0 as u8]);
        assert(arr_items(v@) == dec_of(first.0 as nat));
        assert(input@.subrange(pos as int + 1, cur as int) == arr_items(v@));
        assert forall|bs: Seq<u8>, rest: Seq<u8>|
            arr_at(input@, pos as int, bs, rest) implies (v@.len() <= bs.len() && v@ == bs.take(
            v@.len() as int,
        )) by {
            lemma_arr_at_index(input@, pos as int, bs, rest);
            if bs.len() == 0 {
                assert(arr_items(bs).len() == 0);
                assert(input@[pos as int + 1] == 93);
                assert(false);
            }
            lemma_arr_progress(input@, pos as int, bs, rest, 0);
            assert(first.0 == bs[0] as u64);
            assert(bs.take(1) =~= seq![bs[0]]);
            assert(v@ =~= bs.take(1));
        }
    }
    while cur < input.len()
        invariant
            pos + 1 < cur <= input@.len(),
            v@.len() >= 1,
            input@[pos as int] == 91,
            input@.subrange(pos as int + 1, cur as int) == arr_items(v@),
            cur == input@.len() || !(48 <= input@[cur as int] <= 57),
            forall|bs: Seq<u8>, rest: Seq<u8>|
                #[trigger] arr_at(input@, pos as int, bs, rest) ==> (v@.len() <= bs.len() && v@
                    == bs.take(v@.len() as int)),
        decreases input@.len() - cur,
    {
        let b = input[cur];
        if b == 93 {
            proof {
                assert(input@.subrange(pos as int, cur as int + 1) =~= seq![91u8]
                    + input@.subrange(pos as int + 1, cur as int) + seq![93u8]);
                assert(input@.subrange(pos as int, cur as int + 1) =~= bytes_array_of(v@));
                assert forall|bs: Seq<u8>, rest: Seq<u8>|
                    arr_at(input@, pos as int, bs, rest) implies (v@ == bs && cur as int + 1
                    == pos + bytes_array_of(bs).len()) by {
                    lemma_arr_at_index(input@, pos as int, bs, rest);
                    let m = v@.len() as int;
                    assert(v@ == bs.take(m));
                    assert(arr_items(bs.take(m)) == arr_items(v@));
                    assert(cur as int == pos + 1 + arr_items(v@).len());
                    lemma_arr_progress(input@, pos as int, bs, rest, m);
                    if m < bs.len() {
                        assert(input@[pos + 1 + arr_items(bs.take(m)).len()] == 44);
                        assert(false);
                    }
                    assert(bs.take(m) =~= bs);
                }
            }
            return Some((v, cur + 1));
        }
        if b != 44 {
            proof {
                assert forall|bs: Seq<u8>, rest: Seq<u8>|
                    arr_at(input@, pos as int, bs, rest) implies false by {
                    lemma_arr_at_index(input@, pos as int, bs, rest);
                    let m = v@.len() as int;
                    assert(v@ == bs.take(m));
                    assert(arr_items(bs.take(m)) == arr_items(v@));
                    assert(cur as int == pos + 1 + arr_items(v@).len());
                    lemma_arr_progress(input@, pos as int, bs, rest, m);
                    if m < bs.len() {
                        assert(input@[pos + 1 + arr_items(bs.take(m)).len()] == 44);
                    } else {
                        assert(bs.take(m) =~= bs);
                        assert(input@[pos + 1 + arr_items(bs.take(m)).len()] == 93);
                    }
                }
            }
            return None;
        }
        let item = match parse_dec_u64(input, cur + 1) {
            None => {
                proof {
                    assert forall|bs: Seq<u8>, rest: Seq<u8>|
                        arr_at(input@, pos as int, bs, rest) implies false by {
                        lemma_arr_at_index(input@, pos as int, bs, rest);
                        let m = v@.len() as int;
                        assert(v@ == bs.take(m));
                        assert(arr_items(bs.take(m)) == arr_items(v@));
                        assert(cur as int == pos + 1 + arr_items(v@).len());
                        lemma_arr_progress(input@, pos as int, bs, rest, m);
                        if m < bs.len() {
                        } else {
                            assert(bs.take(m) =~= bs);
                            assert(input@[pos + 1 + arr_items(bs.take(m)).len()] == 93);
                            assert(false);
                        }
                    }
                }
                return None;
            },
            Some(p) => p,
        };
        if item.0 > 255 {
            proof {
                assert forall|bs: Seq<u8>, rest: Seq<u8>|
                    arr_at(input@, pos as int, bs, rest) implies false by {
                    lemma_arr_at_index(input@, pos as int, bs, rest);
                    let m = v@.len() as int;
                    assert(v@ == bs.take(m));
                    assert(arr_items(bs.take(m)) == arr_items(v@));
                    assert(cur as int == pos + 1 + arr_items(v@).len());
                    lemma_arr_progress(input@, pos as int, bs, rest, m);
                    if m < bs.len() {
                        assert(item.0 == bs[m] as u64);
                    } else {
                        assert(bs.take(m) =~= bs);
                        assert(input@[pos + 1 + arr_items(bs.take(m)).len()] == 93);
                        assert(false);
                    }
                }
            }
            return None;
        }
        let ghost pre = v@;
        let ghost pre_cur = cur as int;
        v.push(item.0 as u8);
        cur = item.1;
        proof {
            lemma_arr_items_push(pre, item.0 as u8);
            assert(v@ =~= pre.push(item.0 as u8));
            assert(input@.subrange(pos as int + 1, cur as int) =~= input@.subrange(
                pos as int + 1,
                pre_cur,
            ) + seq![44u8] + input@.subrange(pre_cur + 1, cur as int));
            assert(input@.subrange(pos as int + 1, cur as int) == arr_items(v@));
            assert forall|bs: Seq<u8>, rest: Seq<u8>|
                arr_at(input@, pos as int, bs, rest) implies (v@.len() <= bs.len() && v@
                == bs.take(v@.len() as int)) by {
                lemma_arr_at_index(input@, pos as int, bs, rest);
                let m = pre.len() as int;
                assert(pre == bs.take(m));
                assert(arr_items(bs.take(m)) == arr_items(pre));
                assert(pre_cur == pos + 1 + arr_items(pre).len());
                lemma_arr_progress(input@, pos as int, bs, rest, m);
                if m == bs.len() {
                    assert(bs.take(m) =~= bs);
                    assert(input@[pos + 1 + arr_items(bs.take(m)).len()] == 93);
                    assert(false);
                }
                assert(item.0 == bs[m] as u64);
                assert(bs.take(m + 1) =~= bs.take(m).push(bs[m]));
                assert(v@ =~= bs.take(m + 1));
            }
        }
    }
    proof {
        assert forall|bs: Seq<u8>, rest: Seq<u8>|
            arr_at(input@, pos as int, bs, rest) implies false by {
            lemma_arr_at_index(input@, pos as int, bs, rest);
            let m = v@.len() as int;
            assert(v@ == bs.take(m));
            assert(arr_items(bs.take(m)) == arr_items(v@));
            assert(cur as int == pos + 1 + arr_items(v@).len());
            lemma_arr_progress(input@, pos as int, bs, rest, m);
            assert(input@.len() >= pos + 2 + arr_items(bs.take(m)).len());
        }
    }
    None
}

/// Cumulative byte offsets of the record's pieces.
spec fn off1(s: PuzzleSolution) -> int {
    lbl_peer_id().len() as int
}

spec fn off2(s: PuzzleSolution) -> int {
    off1(s) + bytes_array_of(s.peer_id@).len()
}

spec fn off3(s: PuzzleSolution) -> int {
    off2(s) + lbl_key_block().len()
}

spec fn off4(s: PuzzleSolution) -> int {
    off3(s) + dec_of(s.key_block as nat).len()
}

spec fn off5(s: PuzzleSolution) -> int {
    off4(s) + lbl_signed_context().len()
}

spec fn off6(s: PuzzleSolution) -> int {
    off5(s) + bytes_array_of(s.signed_context@).len()
}

spec fn off7(s: PuzzleSolution) -> int {
    off6(s) + lbl_thread_name().len()
}

spec fn off8(s: PuzzleSolution) -> int {
    off7(s) + bytes_array_of(s.thread_name@).len()
}

spec fn off9(s: PuzzleSolution) -> int {
    off8(s) + lbl_nonce().len()
}

spec fn off10(s: PuzzleSolution) -> int {
    off9(s) + bytes_array_of(s.nonce@).len()
}

spec fn off11(s: PuzzleSolution) -> int {
    off10(s) + lbl_signed_nonce().len()
}

spec fn off12(s: PuzzleSolution) -> int {
    off11(s) + bytes_array_of(s.signed_nonce@).len()
}

spec fn off13(s: PuzzleSolution) -> int {
    off12(s) + lbl_hash().len()
}

spec fn off14(s: PuzzleSolution) -> int {
    off13(s) + bytes_array_of(s.hash@).len()
}

spec fn off15(s: PuzzleSolution) -> int {
    off14(s) + lbl_difficulty().len()
}

spec fn off16(s: PuzzleSolution) -> int {
    off15(s) + dec_of(s.difficulty as nat).len()
}

/// First third of the record decomposition: through the signed
/// context field.
#[verifier::rlimit(100)]
proof fn lemma_json_hyp_a(s: PuzzleSolution, iv: Seq<u8>)
    requires
        iv == json_of(s),
    ensures
        iv.subrange(0, off1(s)) == lbl_peer_id(),
        arr_at(iv, off1(s), s.peer_id@, tail3(s)),
        iv.subrange(off2(s), off3(s)) == lbl_key_block(),
        dec_at(iv, off3(s), s.key_block, tail5(s)),
        iv.subrange(off4(s), off5(s)) == lbl_signed_context(),
        arr_at(iv, off5(s), s.signed_context@, tail7(s)),
        0 <= off6(s) <= iv.len(),
        iv.skip(off6(s)) == tail7(s),
{
    lemma_json_decompose(s);
    assert forall|j: int| 0 <= j < off1(s) implies iv.subrange(0, off1(s))[j]
        == lbl_peer_id()[j] by {
        assert(iv.subrange(0, off1(s))[j] == iv[j]);
        assert(iv[j] == (lbl_peer_id() + tail2(s))[j]);
    }
    assert(iv.subrange(0, off1(s)) =~= lbl_peer_id());
    assert forall|j: int| 0 <= j < iv.skip(off1(s)).len() implies iv.skip(off1(s))[j]
        == tail2(s)[j] by {
        assert(iv.skip(off1(s))[j] == iv[off1(s) + j]);
        assert(iv[off1(s) + j] == (lbl_peer_id() + tail2(s))[off1(s) + j]);
    }
    assert(iv.skip(off1(s)) =~= tail2(s));
    assert(arr_at(iv, off1(s), s.peer_id@, tail3(s))) by {
        assert(iv.skip(off1(s)).len() == iv.len() - off1(s));
    }
    assert forall|j: int| 0 <= j < iv.skip(off2(s)).len() implies iv.skip(off2(s))[j]
        == tail3(s)[j] by {
        assert(iv.skip(off2(s))[j] == iv[off2(s) + j]);
        assert(iv.skip(off1(s))[bytes_array_of(s.peer_id@).len() + j] == iv[off1(s) + (bytes_array_of(s.peer_id@).len() + j)]);
        assert((bytes_array_of(s.peer_id@) + tail3(s))[bytes_array_of(s.peer_id@).len() + j] == tail3(s)[j]);
    }
    assert(iv.skip(off2(s)) =~= tail3(s));
    assert forall|j: int| 0 <= j < lbl_key_block().len() implies iv.subrange(off2(s), off3(s))[j]
        == lbl_key_block()[j] by {
        assert(iv.subrange(off2(s), off3(s))[j] == iv[off2(s) + j]);
        assert(iv.skip(off2(s))[j] == iv[off2(s) + j]);
        assert((lbl_key_block() + tail4(s))[j] == lbl_key_block()[j]);
    }
    assert(iv.subrange(off2(s), off3(s)) =~= lbl_key_block());
    assert forall|j: int| 0 <= j < iv.skip(off3(s)).len() implies iv.skip(off3(s))[j]
        == tail4(s)[j] by {
        assert(iv.skip(off3(s))[j] == iv[off3(s) + j]);
        assert(iv.skip(off2(s))[lbl_key_block().len() + j] == iv[off2(s) + (lbl_key_block().len() + j)]);
        assert((lbl_key_block() + tail4(s))[lbl_key_block().len() + j] == tail4(s)[j]);
    }
    assert(iv.skip(off3(s)) =~= tail4(s));
    assert(tail5(s)[0] == lbl_signed_context()[0]) by {
        assert(tail5(s) == lbl_signed_context() + tail6(s));
    }
    assert(lbl_signed_context()[0] == 44);
    assert(dec_at(iv, off3(s), s.key_block, tail5(s))) by {
        assert(iv.skip(off3(s)).len() == iv.len() - off3(s));
        assert(dec_of((s.key_block) as nat) == dec_of(s.key_block as nat));
    }
    assert forall|j: int| 0 <= j < iv.skip(off4(s)).len() implies iv.skip(off4(s))[j]
        == tail5(s)[j] by {
        assert(iv.skip(off4(s))[j] == iv[off4(s) + j]);
        assert(iv.skip(off3(s))[dec_of(s.key_block as nat).len() + j] == iv[off3(s) + (dec_of(s.key_block as nat).len() + j)]);
        assert((dec_of(s.key_block as nat) + tail5(s))[dec_of(s.key_block as nat).len() + j] == tail5(s)[j]);
    }
    assert(iv.skip(off4(s)) =~= tail5(s));
    assert forall|j: int| 0 <= j < lbl_signed_context().len() implies iv.subrange(off4(s), off5(s))[j]
        == lbl_signed_context()[j] by {
        assert(iv.subrange(off4(s), off5(s))[j] == iv[off4(s) + j]);
        assert(iv.skip(off4(s))[j] == iv[off4(s) + j]);
        assert((lbl_signed_context() + tail6(s))[j] == lbl_signed_context()[j]);
    }
    assert(iv.subrange(off4(s), off5(s)) =~= lbl_signed_context());
    assert forall|j: int| 0 <= j < iv.skip(off5(s)).len() implies iv.skip(off5(s))[j]
        == tail6(s)[j] by {
        assert(iv.skip(off5(s))[j] == iv[off5(s) + j]);
        assert(iv.skip(off4(s))[lbl_signed_context().len() + j] == iv[off4(s) + (lbl_signed_context().len() + j)]);
        assert((lbl_signed_context() + tail6(s))[lbl_signed_context().len() + j] == tail6(s)[j]);
    }
    assert(iv.skip(off5(s)) =~= tail6(s));
    assert(arr_at(iv, off5(s), s.signed_context@, tail7(s))) by {
        assert(iv.skip(off5(s)).len() == iv.len() - off5(s));
    }
    assert forall|j: int| 0 <= j < iv.skip(off6(s)).len() implies iv.skip(off6(s))[j]
        == tail7(s)[j] by {
        assert(iv.skip(off6(s))[j] == iv[off6(s) + j]);
        assert(iv.skip(off5(s))[bytes_array_of(s.signed_context@).len() + j] == iv[off5(s) + (bytes_array_of(s.signed_context@).len() + j)]);
        assert((bytes_array_of(s.signed_context@) + tail7(s))[bytes_array_of(s.signed_context@).len() + j] == tail7(s)[j]);
    }
    assert(iv.skip(off6(s)) =~= tail7(s));
}

/// Second third of the record decomposition: through the signed
/// nonce field.
#[verifier::rlimit(100)]
proof fn lemma_json_hyp_b(s: PuzzleSolution, iv: Seq<u8>)
    requires
        0 <= off6(s) <= iv.len(),
        iv.skip(off6(s)) == tail7(s),
    ensures
        iv.subrange(off6(s), off7(s)) == lbl_thread_name(),
        arr_at(iv, off7(s), s.thread_name@, tail9(s)),
        iv.subrange(off8(s), off9(s)) == lbl_nonce(),
        arr_at(iv, off9(s), s.nonce@, tail11(s)),
        iv.subrange(off10(s), off11(s)) == lbl_signed_nonce(),
        arr_at(iv, off11(s), s.signed_nonce@, tail13(s)),
        0 <= off12(s) <= iv.len(),
        iv.skip(off12(s)) == tail13(s),
{
    assert(iv.skip(off6(s)).len() == iv.len() - off6(s));
    assert forall|j: int| 0 <= j < lbl_thread_name().len() implies iv.subrange(off6(s), off7(s))[j]
        == lbl_thread_name()[j] by {
        assert(iv.subrange(off6(s), off7(s))[j] == iv[off6(s) + j]);
        assert(iv.skip(off6(s))[j] == iv[off6(s) + j]);
        assert((lbl_thread_name() + tail8(s))[j] == lbl_thread_name()[j]);
    }
    assert(iv.subrange(off6(s), off7(s)) =~= lbl_thread_name());
    assert forall|j: int| 0 <= j < iv.skip(off7(s)).len() implies iv.skip(off7(s))[j]
        == tail8(s)[j] by {
        assert(iv.skip(off7(s))[j] == iv[off7(s) + j]);
        assert(iv.skip(off6(s))[lbl_thread_name().len() + j] == iv[off6(s) + (lbl_thread_name().len() + j)]);
        assert((lbl_thread_name() + tail8(s))[lbl_thread_name().len() + j] == tail8(s)[j]);
    }
    assert(iv.skip(off7(s)) =~= tail8(s));
    assert(arr_at(iv, off7(s), s.thread_name@, tail9(s))) by {
        assert(iv.skip(off7(s)).len() == iv.len() - off7(s));
    }
    assert forall|j: int| 0 <= j < iv.skip(off8(s)).len() implies iv.skip(off8(s))[j]
        == tail9(s)[j] by {
        assert(iv.skip(off8(s))[j] == iv[off8(s) + j]);
        assert(iv.skip(off7(s))[bytes_array_of(s.thread_name@).len() + j] == iv[off7(s) + (bytes_array_of(s.thread_name@).len() + j)]);
        assert((bytes_array_of(s.thread_name@) + tail9(s))[bytes_array_of(s.thread_name@).len() + j] == tail9(s)[j]);
    }
    assert(iv.skip(off8(s)) =~= tail9(s));
    assert forall|j: int| 0 <= j < lbl_nonce().len() implies iv.subrange(off8(s), off9(s))[j]
        == lbl_nonce()[j] by {
        assert(iv.subrange(off8(s), off9(s))[j] == iv[off8(s) + j]);
        assert(iv.skip(off8(s))[j] == iv[off8(s) + j]);
        assert((lbl_nonce() + tail10(s))[j] == lbl_nonce()[j]);
    }
    assert(iv.subrange(off8(s), off9(s)) =~= lbl_nonce());
    assert forall|j: int| 0 <= j < iv.skip(off9(s)).len() implies iv.skip(off9(s))[j]
        == tail10(s)[j] by {
        assert(iv.skip(off9(s))[j] == iv[off9(s) + j]);
        assert(iv.skip(off8(s))[lbl_nonce().len() + j] == iv[off8(s) + (lbl_nonce().len() + j)]);
        assert((lbl_nonce() + tail10(s))[lbl_nonce().len() + j] == tail10(s)[j]);
    }
    assert(iv.skip(off9(s)) =~= tail10(s));
    assert(arr_at(iv, off9(s), s.nonce@, tail11(s))) by {
        assert(iv.skip(off9(s)).len() == iv.len() - off9(s));
    }
    assert forall|j: int| 0 <= j < iv.skip(off10(s)).len() implies iv.skip(off10(s))[j]
        == tail11(s)[j] by {
        assert(iv.skip(off10(s))[j] == iv[off10(s) + j]);
        assert(iv.skip(off9(s))[bytes_array_of(s.nonce@).len() + j] == iv[off9(s) + (bytes_array_of(s.nonce@).len() + j)]);
        assert((bytes_array_of(s.nonce@) + tail11(s))[bytes_array_of(s.nonce@).len() + j] == tail11(s)[j]);
    }
    assert(iv.skip(off10(s)) =~= tail11(s));
    assert forall|j: int| 0 <= j < lbl_signed_nonce().len() implies iv.subrange(off10(s), off11(s))[j]
        == lbl_signed_nonce()[j] by {
        assert(iv.subrange(off10(s), off11(s))[j] == iv[off10(s) + j]);
        assert(iv.skip(off10(s))[j] == iv[off10(s) + j]);
        assert((lbl_signed_nonce() + tail12(s))[j] == lbl_signed_nonce()[j]);
    }
    assert(iv.subrange(off10(s), off11(s)) =~= lbl_signed_nonce());
    assert forall|j: int| 0 <= j < iv.skip(off11(s)).len() implies iv.skip(off11(s))[j]
        == tail12(s)[j] by {
        assert(iv.skip(off11(s))[j] == iv[off11(s) + j]);
        assert(iv.skip(off10(s))[lbl_signed_nonce().len() + j] == iv[off10(s) + (lbl_signed_nonce().len() + j)]);
        assert((lbl_signed_nonce() + tail12(s))[lbl_signed_nonce().len() + j] == tail12(s)[j]);
    }
    assert(iv.skip(off11(s)) =~= tail12(s));
    assert(arr_at(iv, off11(s), s.signed_nonce@, tail13(s))) by {
        assert(iv.skip(off11(s)).len() == iv.len() - off11(s));
    }
    assert forall|j: int| 0 <= j < iv.skip(off12(s)).len() implies iv.skip(off12(s))[j]
        == tail13(s)[j] by {
        assert(iv.skip(off12(s))[j] == iv[off12(s) + j]);
        assert(iv.skip(off11(s))[bytes_array_of(s.signed_nonce@).len() + j] == iv[off11(s) + (bytes_array_of(s.signed_nonce@).len() + j)]);
        assert((bytes_array_of(s.signed_nonce@) + tail13(s))[bytes_array_of(s.signed_nonce@).len() + j] == tail13(s)[j]);
    }
    assert(iv.skip(off12(s)) =~= tail13(s));
}

/// Last third of the record decomposition: through the closing
/// brace.
#[verifier::rlimit(100)]
proof fn lemma_json_hyp_c(s: PuzzleSolution, iv: Seq<u8>)
    requires
        0 <= off12(s) <= iv.len(),
        iv.skip(off12(s)) == tail13(s),
    ensures
        iv.subrange(off12(s), off13(s)) == lbl_hash(),
        arr_at(iv, off13(s), s.hash@, tail15(s)),
        iv.subrange(off14(s), off15(s)) == lbl_difficulty(),
        dec_at(iv, off15(s), s.difficulty as u64, tail17(s)),
        iv[off16(s)] == 125,
        iv.len() == off16(s) + 1,
{
    assert(iv.skip(off12(s)).len() == iv.len() - off12(s));
    assert forall|j: int| 0 <= j < lbl_hash().len() implies iv.subrange(off12(s), off13(s))[j]
        == lbl_hash()[j] by {
        assert(iv.subrange(off12(s), off13(s))[j] == iv[off12(s) + j]);
        assert(iv.skip(off12(s))[j] == iv[off12(s) + j]);
        assert((lbl_hash() + tail14(s))[j] == lbl_hash()[j]);
    }
    assert(iv.subrange(off12(s), off13(s)) =~= lbl_hash());
    assert forall|j: int| 0 <= j < iv.skip(off13(s)).len() implies iv.skip(off13(s))[j]
        == tail14(s)[j] by {
        assert(iv.skip(off13(s))[j] == iv[off13(s) + j]);
        assert(iv.skip(off12(s))[lbl_hash().len() + j] == iv[off12(s) + (lbl_hash().len() + j)]);
        assert((lbl_hash() + tail14(s))[lbl_hash().len() + j] == tail14(s)[j]);
    }
    assert(iv.skip(off13(s)) =~= tail14(s));
    assert(arr_at(iv, off13(s), s.hash@, tail15(s))) by {
        assert(iv.skip(off13(s)).len() == iv.len() - off13(s));
    }
    assert forall|j: int| 0 <= j < iv.skip(off14(s)).len() implies iv.skip(off14(s))[j]
        == tail15(s)[j] by {
        assert(iv.skip(off14(s))[j] == iv[off14(s) + j]);
        assert(iv.skip(off13(s))[bytes_array_of(s.hash@).len() + j] == iv[off13(s) + (bytes_array_of(s.hash@).len() + j)]);
        assert((bytes_array_of(s.hash@) + tail15(s))[bytes_array_of(s.hash@).len() + j] == tail15(s)[j]);
    }
    assert(iv.skip(off14(s)) =~= tail15(s));
    assert forall|j: int| 0 <= j < lbl_difficulty().len() implies iv.subrange(off14(s), off15(s))[j]
        == lbl_difficulty()[j] by {
        assert(iv.subrange(off14(s), off15(s))[j] == iv[off14(s) + j]);
        assert(iv.skip(off14(s))[j] == iv[off14(s) + j]);
        assert((lbl_difficulty() + tail16(s))[j] == lbl_difficulty()[j]);
    }
    assert(iv.subrange(off14(s), off15(s)) =~= lbl_difficulty());
    assert forall|j: int| 0 <= j < iv.skip(off15(s)).len() implies iv.skip(off15(s))[j]
        == tail16(s)[j] by {
        assert(iv.skip(off15(s))[j] == iv[off15(s) + j]);
        assert(iv.skip(off14(s))[lbl_difficulty().len() + j] == iv[off14(s) + (lbl_difficulty().len() + j)]);
        assert((lbl_difficulty() + tail16(s))[lbl_difficulty().len() + j] == tail16(s)[j]);
    }
    assert(iv.skip(off15(s)) =~= tail16(s));
    assert(tail17(s)[0] == 125);
    assert(dec_at(iv, off15(s), (s.difficulty as u64), tail17(s))) by {
        assert(iv.skip(off15(s)).len() == iv.len() - off15(s));
        assert(dec_of(((s.difficulty as u64)) as nat) == dec_of(s.difficulty as nat));
    }
    assert forall|j: int| 0 <= j < iv.skip(off16(s)).len() implies iv.skip(off16(s))[j]
        == tail17(s)[j] by {
        assert(iv.skip(off16(s))[j] == iv[off16(s) + j]);
        assert(iv.skip(off15(s))[dec_of(s.difficulty as nat).len() + j] == iv[off15(s) + (dec_of(s.difficulty as nat).len() + j)]);
        assert((dec_of(s.difficulty as nat) + tail17(s))[dec_of(s.difficulty as nat).len() + j] == tail17(s)[j]);
    }
    assert(iv.skip(off16(s)) =~= tail17(s));
    assert(iv[off16(s)] == tail17(s)[0]) by {
        assert(iv.skip(off16(s))[0] == iv[off16(s) + 0]);
    }
    assert(tail17(s)[0] == 125);
    assert(iv.len() == off16(s) + 1) by {
        assert(iv.skip(off16(s)).len() == iv.len() - off16(s));
    }
}

/// Where each piece of a record stands, stated as the parsing
/// hypotheses that the sub-parsers' completeness clauses consume.
proof fn lemma_json_hypotheses(s: PuzzleSolution, iv: Seq<u8>)
    requires
        iv == json_of(s),
    ensures
        iv.len() == off16(s) + 1,
        iv.subrange(0, off1(s)) == lbl_peer_id(),
        arr_at(iv, off1(s), s.peer_id@, tail3(s)),
        iv.subrange(off2(s), off3(s)) == lbl_key_block(),
        dec_at(iv, off3(s), s.key_block, tail5(s)),
        iv.subrange(off4(s), off5(s)) == lbl_signed_context(),
        arr_at(iv, off5(s), s.signed_context@, tail7(s)),
        iv.subrange(off6(s), off7(s)) == lbl_thread_name(),
        arr_at(iv, off7(s), s.thread_name@, tail9(s)),
        iv.subrange(off8(s), off9(s)) == lbl_nonce(),
        arr_at(iv, off9(s), s.nonce@, tail11(s)),
        iv.subrange(off10(s), off11(s)) == lbl_signed_nonce(),
        arr_at(iv, off11(s), s.signed_nonce@, tail13(s)),
        iv.subrange(off12(s), off13(s)) == lbl_hash(),
        arr_at(iv, off13(s), s.hash@, tail15(s)),
        iv.subrange(off14(s), off15(s)) == lbl_difficulty(),
        dec_at(iv, off15(s), s.difficulty as u64, tail17(s)),
        iv[off16(s)] == 125,
{
    lemma_json_hyp_a(s, iv);
    lemma_json_hyp_b(s, iv);
    lemma_json_hyp_c(s, iv);
}

/// Parses a solution record. Any record this accepts re-encodes, via
/// `json_of`, to exactly the bytes parsed: a parsed file is
/// byte-for-byte the rendering of the returned solution.
/// The first half of a parsed record: the fields through the thread
/// name, with the span boundaries they were read from.
struct ParsedHead {
    peer_id: Vec<u8>,
    key_block: u64,
    signed_context: Vec<u8>,
    thread_name: Vec<u8>,
    p1: usize,
    p2: usize,
    p3: usize,
    p4: usize,
    p5: usize,
    p6: usize,
    p7: usize,
    end: usize,
}

/// Parses a record's first four fields. Sound — the consumed spans are
/// exactly the fields' renderings — and complete: on the rendering of
/// any solution it succeeds with that solution's leading fields.
#[verifier::rlimit(100)]
fn parse_solution_head(input: &Vec<u8>) -> (r: Option<ParsedHead>)
    ensures
        (r matches Some(h) ==> {
            &&& 0 <= h.p1 <= h.p2 <= h.p3 <= h.p4 <= h.p5 <= h.p6 <= h.p7 <= h.end
                <= input@.len()
            &&& input@.subrange(0, h.p1 as int) == lbl_peer_id()
            &&& input@.subrange(h.p1 as int, h.p2 as int) == bytes_array_of(h.peer_id@)
            &&& input@.subrange(h.p2 as int, h.p3 as int) == lbl_key_block()
            &&& input@.subrange(h.p3 as int, h.p4 as int) == dec_of(h.key_block as nat)
            &&& input@.subrange(h.p4 as int, h.p5 as int) == lbl_signed_context()
            &&& input@.subrange(h.p5 as int, h.p6 as int) == bytes_array_of(h.signed_context@)
            &&& input@.subrange(h.p6 as int, h.p7 as int) == lbl_thread_name()
            &&& input@.subrange(h.p7 as int, h.end as int) == bytes_array_of(h.thread_name@)
        }),
        (forall|orig: PuzzleSolution|
            input@ == json_of(orig) ==> (r matches Some(h) && h.peer_id@ == orig.peer_id@
                && h.key_block == orig.key_block && h.signed_context@ == orig.signed_context@
                && h.thread_name@ == orig.thread_name@ && h.end as int == off8(orig))),
{
    let l1 = lbl_peer_id_vec();
    let p1 = match match_at(input, 0, &l1) {
        None => {
            proof {
                assert forall|orig: PuzzleSolution| input@ == json_of(orig) implies false by {
                    lemma_json_hyp_a(orig, input@);
                }
            }
            return None;
        },
        Some(p) => p,
    };
    let (peer_id, p2) = match parse_bytes_array(input, p1) {
        None => {
            proof {
                assert forall|orig: PuzzleSolution| input@ == json_of(orig) implies false by {
                    lemma_json_hyp_a(orig, input@);
                }
            }
            return None;
        },
        Some(p) => p,
    };
    let l2 = lbl_key_block_vec();
    let p3 = match match_at(input, p2, &l2) {
        None => {
            proof {
                assert forall|orig: PuzzleSolution| input@ == json_of(orig) implies false by {
                    lemma_json_hyp_a(orig, input@);
                }
            }
            return None;
        },
        Some(p) => p,
    };
    let (key_block, p4) = match parse_dec_u64(input, p3) {
        None => {
            proof {
                assert forall|orig: PuzzleSolution| input@ == json_of(orig) implies false by {
                    lemma_json_hyp_a(orig, input@);
                }
            }
            return None;
        },
        Some(p) => p,
    };
    let l3 = lbl_signed_context_vec();
    let p5 = match match_at(input, p4, &l3) {
        None => {
            proof {
                assert forall|orig: PuzzleSolution| input@ == json_of(orig) implies false by {
                    lemma_json_hyp_a(orig, input@);
                }
            }
            return None;
        },
        Some(p) => p,
    };
    let (signed_context, p6) = match parse_bytes_array(input, p5) {
        None => {
            proof {
                assert forall|orig: PuzzleSolution| input@ == json_of(orig) implies false by {
                    lemma_json_hyp_a(orig, input@);
                }
            }
            return None;
        },
        Some(p) => p,
    };
    let l4 = lbl_thread_name_vec();
    let p7 = match match_at(input, p6, &l4) {
        None => {
            proof {
                assert forall|orig: PuzzleSolution| input@ == json_of(orig) implies false by {
                    lemma_json_hyp_a(orig, input@);
                    lemma_json_hyp_b(orig, input@);
                }
            }
            return None;
        },
        Some(p) => p,
    };
    let (thread_name, p8) = match parse_bytes_array(input, p7) {
        None => {
            proof {
                assert forall|orig: PuzzleSolution| input@ == json_of(orig) implies false by {
                    lemma_json_hyp_a(orig, input@);
                    lemma_json_hyp_b(orig, input@);
                }
            }
            return None;
        },
        Some(p) => p,
    };
    proof {
        assert forall|orig: PuzzleSolution| input@ == json_of(orig) implies (peer_id@
            == orig.peer_id@ && key_block == orig.key_block && signed_context@
            == orig.signed_context@ && thread_name@ == orig.thread_name@ && p8 as int == off8(
            orig,
        )) by {
            lemma_json_hyp_a(orig, input@);
            lemma_json_hyp_b(orig, input@);
        }
    }
    Some(
        ParsedHead {
            peer_id,
            key_block,
            signed_context,
            thread_name,
            p1,
            p2,
            p3,
            p4,
            p5,
            p6,
            p7,
            end: p8,
        },
    )
}

/// Parses a solution record. Any record this accepts re-encodes, via
/// `json_of`, to exactly the bytes parsed; and the rendering of any
/// solution is accepted and parses back to that solution: a parsed
/// file is byte-for-byte the rendering of the solution it came from.
#[verifier::rlimit(100)]
pub fn parse_solution(input: &Vec<u8>) -> (r: Option<PuzzleSolution>)
    ensures
        (forall|orig: PuzzleSolution| input@ == json_of(orig) ==> r is Some),
        (r matches Some(sol) ==> input@ == json_of(sol)),
        (r matches Some(sol) ==> forall|orig: PuzzleSolution|
            input@ == json_of(orig) ==> {
                &&& sol.peer_id@ == orig.peer_id@
                &&& sol.key_block == orig.key_block
                &&& sol.signed_context@ == orig.signed_context@
                &&& sol.thread_name@ == orig.thread_name@
                &&& sol.nonce@ == orig.nonce@
                &&& sol.signed_nonce@ == orig.signed_nonce@
                &&& sol.hash@ == orig.hash@
                &&& sol.difficulty == orig.difficulty
            }),
{
    let head = match parse_solution_head(input) {
        None => {
            proof {
                assert forall|orig: PuzzleSolution| input@ == json_of(orig) implies false by {
                }
            }
            return None;
        },
        Some(h) => h,
    };
    let p8 = head.end;
    let l5 = lbl_nonce_vec();
    let p9 = match match_at(input, p8, &l5) {
        None => {
            proof {
                assert forall|orig: PuzzleSolution| input@ == json_of(orig) implies false by {
                    lemma_json_hyp_a(orig, input@);
                    lemma_json_hyp_b(orig, input@);
                }
            }
            return None;
        },
        Some(p) => p,
    };
    let (nonce, p10) = match parse_bytes_array(input, p9) {
        None => {
            proof {
                assert forall|orig: PuzzleSolution| input@ == json_of(orig) implies false by {
                    lemma_json_hyp_a(orig, input@);
                    lemma_json_hyp_b(orig, input@);
                }
            }
            return None;
        },
        Some(p) => p,
    };
    let l6 = lbl_signed_nonce_vec();
    let p11 = match match_at(input, p10, &l6) {
        None => {
            proof {
                assert forall|orig: PuzzleSolution| input@ == json_of(orig) implies false by {
                    lemma_json_hyp_a(orig, input@);
                    lemma_json_hyp_b(orig, input@);
                }
            }
            return None;
        },
        Some(p) => p,
    };
    let (signed_nonce, p12) = match parse_bytes_array(input, p11) {
        None => {
            proof {
                assert forall|orig: PuzzleSolution| input@ == json_of(orig) implies false by {
                    lemma_json_hyp_a(orig, input@);
                    lemma_json_hyp_b(orig, input@);
                }
            }
            return None;
        },
        Some(p) => p,
    };
    let l7 = lbl_hash_vec();
    let p13 = match match_at(input, p12, &l7) {
        None => {
            proof {
                assert forall|orig: PuzzleSolution| input@ == json_of(orig) implies false by {
                    lemma_json_hyp_a(orig, input@);
                    lemma_json_hyp_b(orig, input@);
                    lemma_json_hyp_c(orig, input@);
                }
            }
            return None;
        },
        Some(p) => p,
    };
    let (hash, p14) = match parse_bytes_array(input, p13) {
        None => {
            proof {
                assert forall|orig: PuzzleSolution| input@ == json_of(orig) implies false by {
                    lemma_json_hyp_a(orig, input@);
                    lemma_json_hyp_b(orig, input@);
                    lemma_json_hyp_c(orig, input@);
                }
            }
            return None;
        },
        Some(p) => p,
    };
    let l8 = lbl_difficulty_vec();
    let p15 = match match_at(input, p14, &l8) {
        None => {
            proof {
                assert forall|orig: PuzzleSolution| input@ == json_of(orig) implies false by {
                    lemma_json_hyp_a(orig, input@);
                    lemma_json_hyp_b(orig, input@);
                    lemma_json_hyp_c(orig, input@);
                }
            }
            return None;
        },
        Some(p) => p,
    };
    let (difficulty, p16) = match parse_dec_u64(input, p15) {
        None => {
            proof {
                assert forall|orig: PuzzleSolution| input@ == json_of(orig) implies false by {
                    lemma_json_hyp_a(orig, input@);
                    lemma_json_hyp_b(orig, input@);
                    lemma_json_hyp_c(orig, input@);
                }
            }
            return None;
        },
        Some(p) => p,
    };
    if difficulty > 0xffff_ffff {
        proof {
            assert forall|orig: PuzzleSolution| input@ == json_of(orig) implies false by {
                lemma_json_hyp_a(orig, input@);
                lemma_json_hyp_b(orig, input@);
                lemma_json_hyp_c(orig, input@);
            }
        }
        return None;
    }
    if p16 >= input.len() || input[p16] != 125 {
        proof {
            assert forall|orig: PuzzleSolution| input@ == json_of(orig) implies false by {
                lemma_json_hyp_a(orig, input@);
                lemma_json_hyp_b(orig, input@);
                lemma_json_hyp_c(orig, input@);
            }
        }
        return None;
    }
    if p16 + 1 != input.len() {
        proof {
            assert forall|orig: PuzzleSolution| input@ == json_of(orig) implies false by {
                lemma_json_hyp_a(orig, input@);
                lemma_json_hyp_b(orig, input@);
                lemma_json_hyp_c(orig, input@);
            }
        }
        return None;
    }
    let sol = PuzzleSolution::new(
        head.peer_id,
        head.key_block,
        head.signed_context,
        head.thread_name,
        nonce,
        signed_nonce,
        hash,
        difficulty as u32,
    );
    proof {
        lemma_record_assembly(
            input@,
            head.p1 as int,
            head.p2 as int,
            head.p3 as int,
            head.p4 as int,
            head.p5 as int,
            head.p6 as int,
            head.p7 as int,
            p8 as int,
            p9 as int,
            p10 as int,
            p11 as int,
            p12 as int,
            p13 as int,
            p14 as int,
            p15 as int,
            p16 as int,
            sol,
        );
        assert forall|orig: PuzzleSolution| input@ == json_of(orig) implies {
            &&& sol.peer_id@ == orig.peer_id@
            &&& sol.key_block == orig.key_block
            &&& sol.signed_context@ == orig.signed_context@
            &&& sol.thread_name@ == orig.thread_name@
            &&& sol.nonce@ == orig.nonce@
            &&& sol.signed_nonce@ == orig.signed_nonce@
            &&& sol.hash@ == orig.hash@
            &&& sol.difficulty == orig.difficulty
        } by {
            lemma_record_round_trip(sol, orig);
        }
    }
    Some(sol)
}


/// Assembles the record equality from the spans the parser
/// established: consecutive spans covering the whole input, each equal
/// to one piece of the rendering, make the input the rendering itself.
#[verifier::rlimit(100)]
proof fn lemma_record_assembly(
    iv: Seq<u8>,
    p1: int,
    p2: int,
    p3: int,
    p4: int,
    p5: int,
    p6: int,
    p7: int,
    p8: int,
    p9: int,
    p10: int,
    p11: int,
    p12: int,
    p13: int,
    p14: int,
    p15: int,
    p16: int,
    sol: PuzzleSolution,
)
    requires
        0 <= p1 <= p2 <= p3 <= p4 <= p5 <= p6 <= p7 <= p8 <= p9 <= p10 <= p11 <= p12 <= p13 <= p14
            <= p15 <= p16,
        p16 + 1 == iv.len(),
        iv.subrange(0, p1) == lbl_peer_id(),
        iv.subrange(p1, p2) == bytes_array_of(sol.peer_id@),
        iv.subrange(p2, p3) == lbl_key_block(),
        iv.subrange(p3, p4) == dec_of(sol.key_block as nat),
        iv.subrange(p4, p5) == lbl_signed_context(),
        iv.subrange(p5, p6) == bytes_array_of(sol.signed_context@),
        iv.subrange(p6, p7) == lbl_thread_name(),
        iv.subrange(p7, p8) == bytes_array_of(sol.thread_name@),
        iv.subrange(p8, p9) == lbl_nonce(),
        iv.subrange(p9, p10) == bytes_array_of(sol.nonce@),
        iv.subrange(p10, p11) == lbl_signed_nonce(),
        iv.subrange(p11, p12) == bytes_array_of(sol.signed_nonce@),
        iv.subrange(p12, p13) == lbl_hash(),
        iv.subrange(p13, p14) == bytes_array_of(sol.hash@),
        iv.subrange(p14, p15) == lbl_difficulty(),
        iv.subrange(p15, p16) == dec_of(sol.difficulty as nat),
        iv[p16] == 125,
    ensures
        iv == json_of(sol),
{
    assert(iv.subrange(0, p2) =~= iv.subrange(0, p1) + iv.subrange(p1, p2));
    assert(iv.subrange(0, p3) =~= iv.subrange(0, p2) + iv.subrange(p2, p3));
    assert(iv.subrange(0, p4) =~= iv.subrange(0, p3) + iv.subrange(p3, p4));
    assert(iv.subrange(0, p5) =~= iv.subrange(0, p4) + iv.subrange(p4, p5));
    assert(iv.subrange(0, p6) =~= iv.subrange(0, p5) + iv.subrange(p5, p6));
    assert(iv.subrange(0, p7) =~= iv.subrange(0, p6) + iv.subrange(p6, p7));
    assert(iv.subrange(0, p8) =~= iv.subrange(0, p7) + iv.subrange(p7, p8));
    assert(iv.subrange(0, p9) =~= iv.subrange(0, p8) + iv.subrange(p8, p9));
    assert(iv.subrange(0, p10) =~= iv.subrange(0, p9) + iv.subrange(p9, p10));
    assert(iv.subrange(0, p11) =~= iv.subrange(0, p10) + iv.subrange(p10, p11));
    assert(iv.subrange(0, p12) =~= iv.subrange(0, p11) + iv.subrange(p11, p12));
    assert(iv.subrange(0, p13) =~= iv.subrange(0, p12) + iv.subrange(p12, p13));
    assert(iv.subrange(0, p14) =~= iv.subrange(0, p13) + iv.subrange(p13, p14));
    assert(iv.subrange(0, p15) =~= iv.subrange(0, p14) + iv.subrange(p14, p15));
    assert(iv.subrange(0, p16) =~= iv.subrange(0, p15) + iv.subrange(p15, p16));
    assert(iv.subrange(p16, p16 + 1) =~= seq![125u8]);
    assert(iv.subrange(0, p16 + 1) =~= iv.subrange(0, p16) + iv.subrange(p16, p16 + 1));
    assert(iv =~= iv.subrange(0, iv.len() as int));
    assert(iv == json_of(sol));
}


/// Every byte of `arr_items(s)` is a decimal digit or a comma.
proof fn lemma_arr_items_bytes(s: Seq<u8>)
    ensures
        forall|i: int|
            0 <= i < arr_items(s).len() ==> (#[trigger] arr_items(s)[i] == 44 || 48 <= arr_items(
                s,
            )[i] <= 57),
    decreases s.len(),
{
    if s.len() == 0 {
    } else if s.len() == 1 {
        lemma_dec_of_digits(s[0] as nat);
    } else {
        let d = dec_of(s[0] as nat);
        let rest = arr_items(s.drop_first());
        lemma_dec_of_digits(s[0] as nat);
        lemma_arr_items_bytes(s.drop_first());
        assert forall|i: int| 0 <= i < arr_items(s).len() implies (#[trigger] arr_items(s)[i]
            == 44 || 48 <= arr_items(s)[i] <= 57) by {
            if i < d.len() {
                assert(arr_items(s)[i] == d[i]);
            } else if i == d.len() {
                assert(arr_items(s)[i] == 44);
            } else {
                assert(arr_items(s)[i] == rest[i - d.len() - 1]);
            }
        }
    }
}

/// Strips an equal prefix from an equality of concatenations.
proof fn lemma_strip_prefix(p: Seq<u8>, x: Seq<u8>, y: Seq<u8>)
    requires
        p + x == p + y,
    ensures
        x == y,
{
    assert((p + x).len() == p.len() + x.len());
    assert((p + y).len() == p.len() + y.len());
    assert(x.len() == y.len());
    assert forall|i: int| 0 <= i < x.len() implies x[i] == y[i] by {
        assert((p + x)[p.len() + i] == x[i]);
        assert((p + y)[p.len() + i] == y[i]);
    }
    assert(x =~= y);
}

/// A decimal rendering followed by a non-digit determines the number
/// and the rest: the decimal span cannot be read two ways.
proof fn lemma_dec_prefix(a: nat, b: nat, r1: Seq<u8>, r2: Seq<u8>)
    requires
        dec_of(a) + r1 == dec_of(b) + r2,
        r1.len() == 0 || !(48 <= r1[0] <= 57),
        r2.len() == 0 || !(48 <= r2[0] <= 57),
    ensures
        a == b,
        r1 == r2,
{
    lemma_dec_of_digits(a);
    lemma_dec_of_digits(b);
    let da = dec_of(a);
    let db = dec_of(b);
    if da.len() < db.len() {
        assert((da + r1)[da.len() as int] == r1[0]);
        assert((db + r2)[da.len() as int] == db[da.len() as int]);
        assert(false);
    } else if db.len() < da.len() {
        assert((db + r2)[db.len() as int] == r2[0]);
        assert((da + r1)[db.len() as int] == da[db.len() as int]);
        assert(false);
    } else {
        assert forall|i: int| 0 <= i < da.len() implies da[i] == db[i] by {
            assert((da + r1)[i] == da[i]);
            assert((db + r2)[i] == db[i]);
        }
        assert(da =~= db);
        lemma_dec_of_injective(a, b);
        lemma_strip_prefix(da, r1, r2);
    }
}

/// The comma-separated item rendering determines the bytes.
proof fn lemma_arr_items_inj(x: Seq<u8>, y: Seq<u8>)
    requires
        arr_items(x) == arr_items(y),
    ensures
        x == y,
    decreases x.len(),
{
    if x.len() == 0 {
        if y.len() > 0 {
            lemma_dec_of_digits(y[0] as nat);
            assert(arr_items(y).len() > 0);
            assert(false);
        }
        assert(x =~= y);
    } else if y.len() == 0 {
        lemma_dec_of_digits(x[0] as nat);
        assert(arr_items(x).len() > 0);
        assert(false);
    } else if x.len() == 1 && y.len() == 1 {
        lemma_dec_of_injective(x[0] as nat, y[0] as nat);
        assert(x =~= y);
    } else if x.len() == 1 && y.len() > 1 {
        let dy = dec_of(y[0] as nat);
        lemma_dec_of_digits(x[0] as nat);
        lemma_dec_of_digits(y[0] as nat);
        assert(arr_items(y)[dy.len() as int] == 44);
        assert(arr_items(x)[dy.len() as int] == dec_of(x[0] as nat)[dy.len() as int]);
        assert(false);
    } else if y.len() == 1 && x.len() > 1 {
        let dx = dec_of(x[0] as nat);
        lemma_dec_of_digits(x[0] as nat);
        lemma_dec_of_digits(y[0] as nat);
        assert(arr_items(x)[dx.len() as int] == 44);
        assert(arr_items(y)[dx.len() as int] == dec_of(y[0] as nat)[dx.len() as int]);
        assert(false);
    } else {
        let rx = seq![44u8] + arr_items(x.drop_first());
        let ry = seq![44u8] + arr_items(y.drop_first());
        assert(arr_items(x) =~= dec_of(x[0] as nat) + rx);
        assert(arr_items(y) =~= dec_of(y[0] as nat) + ry);
        assert(rx[0] == 44);
        assert(ry[0] == 44);
        lemma_dec_prefix(x[0] as nat, y[0] as nat, rx, ry);
        lemma_strip_prefix(seq![44u8], arr_items(x.drop_first()), arr_items(y.drop_first()));
        lemma_arr_items_inj(x.drop_first(), y.drop_first());
        assert forall|i: int| 0 <= i < x.len() implies x[i] == y[i] by {
            if i >= 1 {
                assert(x[i] == x.drop_first()[i - 1]);
                assert(y[i] == y.drop_first()[i - 1]);
            }
        }
        assert(x =~= y);
    }
}

/// A byte-array rendering followed by anything determines the bytes
/// and the rest: the bracketed span cannot be read two ways.
proof fn lemma_array_prefix(x: Seq<u8>, y: Seq<u8>, r1: Seq<u8>, r2: Seq<u8>)
    requires
        bytes_array_of(x) + r1 == bytes_array_of(y) + r2,
    ensures
        x == y,
        r1 == r2,
{
    lemma_arr_items_bytes(x);
    lemma_arr_items_bytes(y);
    let ix = arr_items(x);
    let iy = arr_items(y);
    let sx = bytes_array_of(x) + r1;
    let sy = bytes_array_of(y) + r2;
    if ix.len() < iy.len() {
        assert(sx[1 + ix.len() as int] == 93);
        assert(sy[1 + ix.len() as int] == iy[ix.len() as int]);
        assert(false);
    } else if iy.len() < ix.len() {
        assert(sy[1 + iy.len() as int] == 93);
        assert(sx[1 + iy.len() as int] == ix[iy.len() as int]);
        assert(false);
    } else {
        assert forall|i: int| 0 <= i < ix.len() implies ix[i] == iy[i] by {
            assert(sx[1 + i] == ix[i]);
            assert(sy[1 + i] == iy[i]);
        }
        assert(ix =~= iy);
        lemma_arr_items_inj(x, y);
        assert(sx.len() == ix.len() + 2 + r1.len());
        assert(sy.len() == iy.len() + 2 + r2.len());
        assert(r1.len() == r2.len());
        assert forall|i: int| 0 <= i < r1.len() implies r1[i] == r2[i] by {
            assert(sx[ix.len() as int + 2 + i] == r1[i]);
            assert(sy[iy.len() as int + 2 + i] == r2[i]);
        }
        assert(r1 =~= r2);
    }
}

/// The suffix of the record from its `k`-th piece on; these carve
/// the rendering into its pieces for the uniqueness and completeness
/// proofs.
spec fn tail17(s: PuzzleSolution) -> Seq<u8> {
    seq![125u8]
}

spec fn tail16(s: PuzzleSolution) -> Seq<u8> {
    dec_of(s.difficulty as nat) + tail17(s)
}

spec fn tail15(s: PuzzleSolution) -> Seq<u8> {
    lbl_difficulty() + tail16(s)
}

spec fn tail14(s: PuzzleSolution) -> Seq<u8> {
    bytes_array_of(s.hash@) + tail15(s)
}

spec fn tail13(s: PuzzleSolution) -> Seq<u8> {
    lbl_hash() + tail14(s)
}

spec fn tail12(s: PuzzleSolution) -> Seq<u8> {
    bytes_array_of(s.signed_nonce@) + tail13(s)
}

spec fn tail11(s: PuzzleSolution) -> Seq<u8> {
    lbl_signed_nonce() + tail12(s)
}

spec fn tail10(s: PuzzleSolution) -> Seq<u8> {
    bytes_array_of(s.nonce@) + tail11(s)
}

spec fn tail9(s: PuzzleSolution) -> Seq<u8> {
    lbl_nonce() + tail10(s)
}

spec fn tail8(s: PuzzleSolution) -> Seq<u8> {
    bytes_array_of(s.thread_name@) + tail9(s)
}

spec fn tail7(s: PuzzleSolution) -> Seq<u8> {
    lbl_thread_name() + tail8(s)
}

spec fn tail6(s: PuzzleSolution) -> Seq<u8> {
    bytes_array_of(s.signed_context@) + tail7(s)
}

spec fn tail5(s: PuzzleSolution) -> Seq<u8> {
    lbl_signed_context() + tail6(s)
}

spec fn tail4(s: PuzzleSolution) -> Seq<u8> {
    dec_of(s.key_block as nat) + tail5(s)
}

spec fn tail3(s: PuzzleSolution) -> Seq<u8> {
    lbl_key_block() + tail4(s)
}

spec fn tail2(s: PuzzleSolution) -> Seq<u8> {
    bytes_array_of(s.peer_id@) + tail3(s)
}

/// The record is its first piece followed by the rest.
#[verifier::rlimit(100)]
proof fn lemma_json_decompose(s: PuzzleSolution)
    ensures
        json_of(s) == lbl_peer_id() + tail2(s),
{
    let l1 = lbl_peer_id();
    let l2 = l1 + bytes_array_of(s.peer_id@);
    let l3 = l2 + lbl_key_block();
    let l4 = l3 + dec_of(s.key_block as nat);
    let l5 = l4 + lbl_signed_context();
    let l6 = l5 + bytes_array_of(s.signed_context@);
    let l7 = l6 + lbl_thread_name();
    let l8 = l7 + bytes_array_of(s.thread_name@);
    let l9 = l8 + lbl_nonce();
    let l10 = l9 + bytes_array_of(s.nonce@);
    let l11 = l10 + lbl_signed_nonce();
    let l12 = l11 + bytes_array_of(s.signed_nonce@);
    let l13 = l12 + lbl_hash();
    let l14 = l13 + bytes_array_of(s.hash@);
    let l15 = l14 + lbl_difficulty();
    let l16 = l15 + dec_of(s.difficulty as nat);
    let l17 = l16 + seq![125u8];
    assert(json_of(s) == l17);
    assert(l17 =~= l16 + tail17(s));
    assert(l16 + tail17(s) =~= l15 + tail16(s));
    assert(l15 + tail16(s) =~= l14 + tail15(s));
    assert(l14 + tail15(s) =~= l13 + tail14(s));
    assert(l13 + tail14(s) =~= l12 + tail13(s));
    assert(l12 + tail13(s) =~= l11 + tail12(s));
    assert(l11 + tail12(s) =~= l10 + tail11(s));
    assert(l10 + tail11(s) =~= l9 + tail10(s));
    assert(l9 + tail10(s) =~= l8 + tail9(s));
    assert(l8 + tail9(s) =~= l7 + tail8(s));
    assert(l7 + tail8(s) =~= l6 + tail7(s));
    assert(l6 + tail7(s) =~= l5 + tail6(s));
    assert(l5 + tail6(s) =~= l4 + tail5(s));
    assert(l4 + tail5(s) =~= l3 + tail4(s));
    assert(l3 + tail4(s) =~= l2 + tail3(s));
    assert(l2 + tail3(s) =~= l1 + tail2(s));
}

#[verifier::rlimit(100)]
proof fn lemma_peel_front(a: PuzzleSolution, b: PuzzleSolution)
    requires
        tail2(a) == tail2(b),
    ensures
        a.peer_id@ == b.peer_id@,
        a.key_block == b.key_block,
        a.signed_context@ == b.signed_context@,
        tail8(a) == tail8(b),
{
    lemma_array_prefix(a.peer_id@, b.peer_id@, tail3(a), tail3(b));
    lemma_strip_prefix(lbl_key_block(), tail4(a), tail4(b));
    assert(tail5(a)[0] == lbl_signed_context()[0]);
    assert(tail5(b)[0] == lbl_signed_context()[0]);
    lemma_dec_prefix(a.key_block as nat, b.key_block as nat, tail5(a), tail5(b));
    lemma_strip_prefix(lbl_signed_context(), tail6(a), tail6(b));
    lemma_array_prefix(a.signed_context@, b.signed_context@, tail7(a), tail7(b));
    lemma_strip_prefix(lbl_thread_name(), tail8(a), tail8(b));
}

#[verifier::rlimit(100)]
proof fn lemma_peel_middle(a: PuzzleSolution, b: PuzzleSolution)
    requires
        tail8(a) == tail8(b),
    ensures
        a.thread_name@ == b.thread_name@,
        a.nonce@ == b.nonce@,
        a.signed_nonce@ == b.signed_nonce@,
        tail13(a) == tail13(b),
{
    lemma_array_prefix(a.thread_name@, b.thread_name@, tail9(a), tail9(b));
    lemma_strip_prefix(lbl_nonce(), tail10(a), tail10(b));
    lemma_array_prefix(a.nonce@, b.nonce@, tail11(a), tail11(b));
    lemma_strip_prefix(lbl_signed_nonce(), tail12(a), tail12(b));
    lemma_array_prefix(a.signed_nonce@, b.signed_nonce@, tail13(a), tail13(b));
}

#[verifier::rlimit(100)]
proof fn lemma_peel_back(a: PuzzleSolution, b: PuzzleSolution)
    requires
        tail13(a) == tail13(b),
    ensures
        a.hash@ == b.hash@,
        a.difficulty == b.difficulty,
        tail17(a) == tail17(b),
{
    lemma_strip_prefix(lbl_hash(), tail14(a), tail14(b));
    lemma_array_prefix(a.hash@, b.hash@, tail15(a), tail15(b));
    lemma_strip_prefix(lbl_difficulty(), tail16(a), tail16(b));
    assert(tail17(a)[0] == 125);
    assert(tail17(b)[0] == 125);
    lemma_dec_prefix(a.difficulty as nat, b.difficulty as nat, tail17(a), tail17(b));
}

/// The record rendering is injective: a file parsed back yields
/// the solution it was written from, field for field. Together with
/// the contracts of `solution_json_bytes` and `parse_solution` this
/// is the record round trip.
pub proof fn lemma_record_round_trip(a: PuzzleSolution, b: PuzzleSolution)
    requires
        json_of(a) == json_of(b),
    ensures
        a.peer_id@ == b.peer_id@,
        a.key_block == b.key_block,
        a.signed_context@ == b.signed_context@,
        a.thread_name@ == b.thread_name@,
        a.nonce@ == b.nonce@,
        a.signed_nonce@ == b.signed_nonce@,
        a.hash@ == b.hash@,
        a.difficulty == b.difficulty,
{
    lemma_json_decompose(a);
    lemma_json_decompose(b);
    lemma_strip_prefix(lbl_peer_id(), tail2(a), tail2(b));
    lemma_peel_front(a, b);
    lemma_peel_middle(a, b);
    lemma_peel_back(a, b);
}
} // verus!
