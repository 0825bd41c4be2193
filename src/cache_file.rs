use vstd::prelude::*;
use vstd::seq_lib::lemma_concat_associative;
use vstd::string::StringSliceAdditionalSpecFns;

use crate::account::{AccountInfo, AccountView};
use crate::handler::{accounts_view, storage_view, BackendHandler};
use crate::model::{apply_pairs, HandlerView};
use crate::table::Table;
use crate::types::{Address, BlockId, SlotKey, B256, U256};

verus! {

/// Per-account slot lists, in the form the contracts speak of.
pub open spec fn storage_seq(d: Seq<(Address, Vec<(U256, U256)>)>) -> Seq<(Address, Seq<(U256, U256)>)> {
    d.map_values(|e: (Address, Vec<(U256, U256)>)| (e.0, e.1@))
}

/// The lowercase hexadecimal digit of `d`, for `d < 16`.
pub open spec fn hex_char(d: nat) -> u8 {
    if d < 10 {
        (48 + d) as u8
    } else {
        (87 + d) as u8
    }
}

/// The `w` lowest hexadecimal digits of `v`, most significant first.
pub open spec fn hex_fixed(v: nat, w: nat) -> Seq<u8>
    decreases w,
{
    if w == 0 {
        Seq::empty()
    } else {
        hex_fixed(v / 16, (w - 1) as nat).push(hex_char(v % 16))
    }
}

/// Two hexadecimal digits for each byte.
pub open spec fn bytes_hex(b: Seq<u8>) -> Seq<u8>
    decreases b.len(),
{
    if b.len() == 0 {
        Seq::empty()
    } else {
        bytes_hex(b.drop_last()) + hex_fixed(b.last() as nat, 2)
    }
}

/// A quoted, `0x`-prefixed hexadecimal string around `digits`.
pub open spec fn quoted_hex(digits: Seq<u8>) -> Seq<u8> {
    "\"0x".spec_bytes() + digits + "\"".spec_bytes()
}

pub open spec fn address_text(a: Address) -> Seq<u8> {
    quoted_hex(hex_fixed(a.hi as nat, 8) + hex_fixed(a.lo as nat, 32))
}

pub open spec fn word_text(v: U256) -> Seq<u8> {
    quoted_hex(hex_fixed(v.hi as nat, 32) + hex_fixed(v.lo as nat, 32))
}

pub open spec fn hash_text(h: B256) -> Seq<u8> {
    quoted_hex(hex_fixed(h.hi as nat, 32) + hex_fixed(h.lo as nat, 32))
}

/// One account record: `"0x<address>":{"balance":..,"nonce":..,"code":..,"code_hash":..}`.
pub open spec fn account_text(a: Address, acc: AccountView) -> Seq<u8> {
    pair_text(a.hi as nat, a.lo as nat, 8, 32) + (":{\"balance\":".spec_bytes() + (pair_text(
        acc.balance.hi as nat,
        acc.balance.lo as nat,
        32,
        32,
    ) + (",\"nonce\":".spec_bytes() + (pair_text(acc.nonce as nat, 0, 16, 0) + (",\"code\":".spec_bytes() + (
    "\"0x".spec_bytes() + (bytes_hex(acc.code) + ("\"".spec_bytes() + (",\"code_hash\":".spec_bytes() + (pair_text(
        acc.code_hash.hi as nat,
        acc.code_hash.lo as nat,
        32,
        32,
    ) + "}".spec_bytes()))))))))))
}

/// One slot record: `"0x<slot>":"0x<value>"`.
pub open spec fn slot_text(i: U256, v: U256) -> Seq<u8> {
    word_text(i) + ":".spec_bytes() + word_text(v)
}

/// One block-hash record: `"0x<block key>":"0x<hash>"`.
pub open spec fn block_hash_text(k: U256, h: B256) -> Seq<u8> {
    word_text(k) + ":".spec_bytes() + hash_text(h)
}

/// The records `f(0), .., f(n - 1)` joined by commas.
pub open spec fn joined(parts: Seq<Seq<u8>>) -> Seq<u8>
    decreases parts.len(),
{
    if parts.len() == 0 {
        Seq::empty()
    } else if parts.len() == 1 {
        parts[0]
    } else {
        joined(parts.drop_last()) + ",".spec_bytes() + parts.last()
    }
}

/// The slots of one account: `"0x<address>":{<slot records>}`.
pub open spec fn slots_text(a: Address, slots: Seq<(U256, U256)>) -> Seq<u8> {
    address_text(a) + ":{".spec_bytes() + joined(slots.map_values(|s: (U256, U256)| slot_text(s.0, s.1)))
        + "}".spec_bytes()
}

/// The whole cache file: three sections, `accounts`, `storage` and
/// `block_hashes`, each an object of records in the order given.
pub open spec fn cache_text(
    accounts: Seq<(Address, AccountView)>,
    storage: Seq<(Address, Seq<(U256, U256)>)>,
    hashes: Seq<(U256, B256)>,
) -> Seq<u8> {
    "{\"accounts\":{".spec_bytes() + joined(accounts.map_values(|e: (Address, AccountView)| account_text(e.0, e.1)))
        + "},\"storage\":{".spec_bytes() + joined(
        storage.map_values(|e: (Address, Seq<(U256, U256)>)| slots_text(e.0, e.1)),
    ) + "},\"block_hashes\":{".spec_bytes() + joined(hashes.map_values(|e: (U256, B256)| block_hash_text(e.0, e.1)))
        + "}}".spec_bytes()
}

/// Appends the bytes of `s`.
fn push_str(out: &mut Vec<u8>, s: &str)
    ensures
        final(out)@ == old(out)@ + s.spec_bytes(),
{
    let b = s.as_bytes();
    let ghost start = out@;
    let mut i: usize = 0;
    while i < b.len()
        invariant
            b@ == s.spec_bytes(),
            i <= b@.len(),
            out@ == start + b@.subrange(0, i as int),
        decreases b@.len() - i,
    {
        out.push(b[i]);
        i = i + 1;
        assert(out@ =~= start + b@.subrange(0, i as int));
    }
    assert(b@.subrange(0, i as int) =~= b@);
}

/// Appends the `w` lowest hexadecimal digits of `v`.
fn push_hex(out: &mut Vec<u8>, v: u128, w: usize)
    requires
        w <= 32,
    ensures
        final(out)@ == old(out)@ + hex_fixed(v as nat, w as nat),
{
    let mut digits: Vec<u8> = Vec::new();
    let mut x: u128 = v;
    let mut i: usize = 0;
    while i < w
        invariant
            i <= w,
            hex_fixed(v as nat, w as nat) == hex_fixed(x as nat, (w - i) as nat) + digits@,
        decreases w - i,
    {
        let d = x % 16;
        let c: u8 = if d < 10 {
            48 + d as u8
        } else {
            87 + d as u8
        };
        let ghost old_digits = digits@;
        digits.insert(0, c);
        assert(hex_fixed(x as nat, (w - i) as nat) == hex_fixed((x / 16) as nat, (w - i - 1) as nat).push(c));
        assert(digits@ =~= Seq::empty().push(c) + old_digits);
        assert(hex_fixed((x / 16) as nat, (w - i - 1) as nat).push(c) + old_digits =~= hex_fixed(
            (x / 16) as nat,
            (w - i - 1) as nat,
        ) + digits@);
        x = x / 16;
        i = i + 1;
    }
    assert(hex_fixed(x as nat, 0) =~= Seq::<u8>::empty());
    assert(Seq::<u8>::empty() + digits@ =~= digits@);
    let ghost start = out@;
    let mut j: usize = 0;
    while j < digits.len()
        invariant
            j <= digits@.len(),
            out@ == start + digits@.subrange(0, j as int),
        decreases digits@.len() - j,
    {
        out.push(digits[j]);
        j = j + 1;
        assert(out@ =~= start + digits@.subrange(0, j as int));
    }
    assert(digits@.subrange(0, j as int) =~= digits@);
}

/// Appends two hexadecimal digits for each byte of `b`.
fn push_bytes_hex(out: &mut Vec<u8>, b: &Vec<u8>)
    ensures
        final(out)@ == old(out)@ + bytes_hex(b@),
{
    let ghost start = out@;
    let mut i: usize = 0;
    while i < b.len()
        invariant
            i <= b@.len(),
            out@ == start + bytes_hex(b@.subrange(0, i as int)),
        decreases b@.len() - i,
    {
        push_hex(out, b[i] as u128, 2);
        proof {
            let pre = b@.subrange(0, i as int + 1);
            assert(pre.drop_last() =~= b@.subrange(0, i as int));
            assert(pre.last() == b@[i as int]);
        }
        i = i + 1;
    }
    assert(b@.subrange(0, i as int) =~= b@);
}

fn push_address(out: &mut Vec<u8>, a: Address)
    ensures
        final(out)@ == old(out)@ + address_text(a),
{
    let ghost start = out@;
    push_str(out, "\"0x");
    push_hex(out, a.hi as u128, 8);
    push_hex(out, a.lo, 32);
    push_str(out, "\"");
    assert(out@ =~= start + address_text(a));
}

fn push_word(out: &mut Vec<u8>, v: U256)
    ensures
        final(out)@ == old(out)@ + word_text(v),
{
    let ghost start = out@;
    push_str(out, "\"0x");
    push_hex(out, v.hi, 32);
    push_hex(out, v.lo, 32);
    push_str(out, "\"");
    assert(out@ =~= start + word_text(v));
}

fn push_hash(out: &mut Vec<u8>, h: B256)
    ensures
        final(out)@ == old(out)@ + hash_text(h),
{
    let ghost start = out@;
    push_str(out, "\"0x");
    push_hex(out, h.hi, 32);
    push_hex(out, h.lo, 32);
    push_str(out, "\"");
    assert(out@ =~= start + hash_text(h));
}

fn push_account(out: &mut Vec<u8>, a: Address, acc: &AccountInfo)
    ensures
        final(out)@ == old(out)@ + account_text(a, acc@),
{
    let ghost o0 = out@;
    push_address(out, a);
    let ghost o1 = out@;
    push_str(out, ":{\"balance\":");
    let ghost o2 = out@;
    push_word(out, acc.balance);
    let ghost o3 = out@;
    push_str(out, ",\"nonce\":");
    let ghost o4 = out@;
    push_str(out, "\"0x");
    push_hex(out, acc.nonce as u128, 16);
    push_str(out, "\"");
    assert(hex_fixed(0, 0) =~= Seq::<u8>::empty());
    assert(out@ =~= o4 + pair_text(acc.nonce as nat, 0, 16, 0));
    let ghost o5 = out@;
    push_str(out, ",\"code\":");
    let ghost o6 = out@;
    push_str(out, "\"0x");
    let ghost o7 = out@;
    push_bytes_hex(out, &acc.code);
    let ghost o8 = out@;
    push_str(out, "\"");
    let ghost o9 = out@;
    push_str(out, ",\"code_hash\":");
    let ghost o10 = out@;
    push_hash(out, acc.code_hash);
    let ghost o11 = out@;
    push_str(out, "}");
    proof {
        let x11 = "}".spec_bytes();
        let r10 = pair_text(acc.code_hash.hi as nat, acc.code_hash.lo as nat, 32, 32) + x11;
        let r9 = ",\"code_hash\":".spec_bytes() + r10;
        let r8 = "\"".spec_bytes() + r9;
        let r7 = bytes_hex(acc.code@) + r8;
        let r6 = "\"0x".spec_bytes() + r7;
        let r5 = ",\"code\":".spec_bytes() + r6;
        let r4 = pair_text(acc.nonce as nat, 0, 16, 0) + r5;
        let r3 = ",\"nonce\":".spec_bytes() + r4;
        let r2 = pair_text(acc.balance.hi as nat, acc.balance.lo as nat, 32, 32) + r3;
        let r1 = ":{\"balance\":".spec_bytes() + r2;
        let r0 = pair_text(a.hi as nat, a.lo as nat, 8, 32) + r1;
        lemma_concat_associative(o10, pair_text(acc.code_hash.hi as nat, acc.code_hash.lo as nat, 32, 32), x11);
        lemma_concat_associative(o9, ",\"code_hash\":".spec_bytes(), r10);
        lemma_concat_associative(o8, "\"".spec_bytes(), r9);
        lemma_concat_associative(o7, bytes_hex(acc.code@), r8);
        lemma_concat_associative(o6, "\"0x".spec_bytes(), r7);
        lemma_concat_associative(o5, ",\"code\":".spec_bytes(), r6);
        lemma_concat_associative(o4, pair_text(acc.nonce as nat, 0, 16, 0), r5);
        lemma_concat_associative(o3, ",\"nonce\":".spec_bytes(), r4);
        lemma_concat_associative(o2, pair_text(acc.balance.hi as nat, acc.balance.lo as nat, 32, 32), r3);
        lemma_concat_associative(o1, ":{\"balance\":".spec_bytes(), r2);
        lemma_concat_associative(o0, pair_text(a.hi as nat, a.lo as nat, 8, 32), r1);
        assert(r0 == account_text(a, acc@));
    }
}

proof fn lemma_joined_step(parts: Seq<Seq<u8>>, i: int)
    requires
        0 <= i < parts.len(),
    ensures
        joined(parts.take(i + 1)) == if i == 0 {
            parts[0]
        } else {
            joined(parts.take(i)) + ",".spec_bytes() + parts[i]
        },
{
    let t = parts.take(i + 1);
    assert(t.drop_last() =~= parts.take(i));
    assert(t.last() == parts[i]);
    if i == 0 {
        assert(t.len() == 1);
    }
}

fn push_slot_records(out: &mut Vec<u8>, slots: &Vec<(U256, U256)>)
    ensures
        final(out)@ == old(out)@ + joined(slots@.map_values(|s: (U256, U256)| slot_text(s.0, s.1))),
{
    let ghost parts = slots@.map_values(|s: (U256, U256)| slot_text(s.0, s.1));
    let ghost start = out@;
    let mut i: usize = 0;
    while i < slots.len()
        invariant
            i <= slots@.len(),
            parts == slots@.map_values(|s: (U256, U256)| slot_text(s.0, s.1)),
            out@ == start + joined(parts.take(i as int)),
        decreases slots@.len() - i,
    {
        let ghost before = out@;
        if i > 0 {
            push_str(out, ",");
        }
        let (k, v) = slots[i];
        push_word(out, k);
        push_str(out, ":");
        push_word(out, v);
        proof {
            lemma_joined_step(parts, i as int);
            assert(parts[i as int] == slot_text(k, v));
            if i == 0 {
                assert(joined(parts.take(0)) == Seq::<u8>::empty());
                assert(out@ =~= start + joined(parts.take(i + 1)));
            } else {
                assert(out@ =~= start + joined(parts.take(i + 1)));
            }
        }
        i = i + 1;
    }
    assert(parts.take(i as int) =~= parts);
}

/// The cache file for the given accounts, storage and block hashes, in the
/// order given.
pub fn encode_cache(
    accounts: &Vec<(Address, AccountInfo)>,
    storage: &Vec<(Address, Vec<(U256, U256)>)>,
    hashes: &Vec<(U256, B256)>,
) -> (r: Vec<u8>)
    ensures
        r@ == cache_text(accounts_view(accounts@), storage_seq(storage@), hashes@),
{
    let mut out: Vec<u8> = Vec::new();
    push_str(&mut out, "{\"accounts\":{");
    let ghost p0 = out@;
    let ghost parts = accounts_view(accounts@).map_values(|e: (Address, AccountView)| account_text(e.0, e.1));
    let mut i: usize = 0;
    while i < accounts.len()
        invariant
            i <= accounts@.len(),
            parts == accounts_view(accounts@).map_values(|e: (Address, AccountView)| account_text(e.0, e.1)),
            out@ == p0 + joined(parts.take(i as int)),
        decreases accounts@.len() - i,
    {
        if i > 0 {
            push_str(&mut out, ",");
        }
        push_account(&mut out, accounts[i].0, &accounts[i].1);
        proof {
            lemma_joined_step(parts, i as int);
            assert(parts[i as int] == account_text(accounts@[i as int].0, accounts@[i as int].1@));
            if i == 0 {
                assert(joined(parts.take(0)) == Seq::<u8>::empty());
            }
            assert(out@ =~= p0 + joined(parts.take(i + 1)));
        }
        i = i + 1;
    }
    assert(parts.take(i as int) =~= parts);
    push_str(&mut out, "},\"storage\":{");
    let ghost p1 = out@;
    let ghost sparts = storage_seq(storage@).map_values(|e: (Address, Seq<(U256, U256)>)| slots_text(e.0, e.1));
    let mut j: usize = 0;
    while j < storage.len()
        invariant
            j <= storage@.len(),
            sparts == storage_seq(storage@).map_values(|e: (Address, Seq<(U256, U256)>)| slots_text(e.0, e.1)),
            out@ == p1 + joined(sparts.take(j as int)),
        decreases storage@.len() - j,
    {
        let ghost before = out@;
        if j > 0 {
            push_str(&mut out, ",");
        }
        let ghost mid = out@;
        push_address(&mut out, storage[j].0);
        push_str(&mut out, ":{");
        push_slot_records(&mut out, &storage[j].1);
        push_str(&mut out, "}");
        proof {
            assert(out@ =~= mid + slots_text(storage@[j as int].0, storage@[j as int].1@));
            lemma_joined_step(sparts, j as int);
            if j == 0 {
                assert(joined(sparts.take(0)) == Seq::<u8>::empty());
            }
            assert(out@ =~= p1 + joined(sparts.take(j + 1)));
        }
        j = j + 1;
    }
    assert(sparts.take(j as int) =~= sparts);
    push_str(&mut out, "},\"block_hashes\":{");
    let ghost p2 = out@;
    let ghost hparts = hashes@.map_values(|e: (U256, B256)| block_hash_text(e.0, e.1));
    let mut k: usize = 0;
    while k < hashes.len()
        invariant
            k <= hashes@.len(),
            hparts == hashes@.map_values(|e: (U256, B256)| block_hash_text(e.0, e.1)),
            out@ == p2 + joined(hparts.take(k as int)),
        decreases hashes@.len() - k,
    {
        if k > 0 {
            push_str(&mut out, ",");
        }
        let (n, h) = hashes[k];
        push_word(&mut out, n);
        push_str(&mut out, ":");
        push_hash(&mut out, h);
        proof {
            lemma_joined_step(hparts, k as int);
            if k == 0 {
                assert(joined(hparts.take(0)) == Seq::<u8>::empty());
            }
            assert(out@ =~= p2 + joined(hparts.take(k + 1)));
        }
        k = k + 1;
    }
    assert(hparts.take(k as int) =~= hparts);
    push_str(&mut out, "}}");
    assert(out@ =~= cache_text(accounts_view(accounts@), storage_seq(storage@), hashes@));
    out
}

/// `16` to the power `w`.
pub open spec fn pow16(w: nat) -> nat
    decreases w,
{
    if w == 0 {
        1
    } else {
        16 * pow16((w - 1) as nat)
    }
}

/// Whether `c` is a lowercase hexadecimal digit.
pub open spec fn is_hex_char(c: u8) -> bool {
    (48 <= c <= 57) || (97 <= c <= 102)
}

proof fn lemma_hex_char(d: nat)
    requires
        d < 16,
    ensures
        is_hex_char(hex_char(d)),
        forall|e: nat| e < 16 && hex_char(e) == hex_char(d) ==> e == d,
{
}

proof fn lemma_div_mod16(x: nat, d: nat)
    requires
        d < 16,
    ensures
        (x * 16 + d) / 16 == x,
        (x * 16 + d) % 16 == d,
{
    assert((x * 16 + d) / 16 == x && (x * 16 + d) % 16 == d) by (nonlinear_arith)
        requires d < 16;
}

proof fn lemma_hex_fixed_valid(v: nat, w: nat)
    ensures
        hex_fixed(v, w).len() == w,
        forall|i: int| 0 <= i < w ==> is_hex_char(#[trigger] hex_fixed(v, w)[i]),
    decreases w,
{
    if w > 0 {
        lemma_hex_fixed_valid(v / 16, (w - 1) as nat);
        lemma_hex_char(v % 16);
        let s = hex_fixed(v, w);
        assert forall|i: int| 0 <= i < w implies is_hex_char(#[trigger] s[i]) by {
            if i < w - 1 {
                assert(s[i] == hex_fixed(v / 16, (w - 1) as nat)[i]);
            }
        }
    }
}

proof fn lemma_hex_fixed_injective(v1: nat, v2: nat, w: nat)
    requires
        v1 < pow16(w),
        v2 < pow16(w),
        hex_fixed(v1, w) == hex_fixed(v2, w),
    ensures
        v1 == v2,
    decreases w,
{
    if w == 0 {
    } else {
        let p = pow16((w - 1) as nat);
        assert(hex_fixed(v1, w).last() == hex_char(v1 % 16));
        assert(hex_fixed(v2, w).last() == hex_char(v2 % 16));
        lemma_hex_char(v1 % 16);
        lemma_hex_char(v2 % 16);
        assert(v1 % 16 == v2 % 16);
        assert(hex_fixed(v1 / 16, (w - 1) as nat) =~= hex_fixed(v1, w).drop_last());
        assert(hex_fixed(v2 / 16, (w - 1) as nat) =~= hex_fixed(v2, w).drop_last());
        assert(v1 / 16 < p && v2 / 16 < p) by (nonlinear_arith)
            requires v1 < 16 * p, v2 < 16 * p;
        lemma_hex_fixed_injective(v1 / 16, v2 / 16, (w - 1) as nat);
        assert(v1 == 16 * (v1 / 16) + v1 % 16 && v2 == 16 * (v2 / 16) + v2 % 16) by (nonlinear_arith);
    }
}

/// The value of a hexadecimal digit, if `c` is one.
fn hex_digit(c: u8) -> (r: Option<u8>)
    ensures
        match r {
            Some(d) => d < 16 && hex_char(d as nat) == c,
            None => !is_hex_char(c),
        },
{
    if 48 <= c && c <= 57 {
        Some(c - 48)
    } else if 97 <= c && c <= 102 {
        Some(c - 87)
    } else {
        None
    }
}

/// Reads `w` hexadecimal digits at `pos`: their value and the position
/// after them, where there are `w` such digits there.
fn parse_hex(b: &Vec<u8>, pos: usize, w: usize) -> (r: Option<(u128, usize)>)
    requires
        w <= 32,
    ensures
        match r {
            Some((v, p)) => p == pos + w && p <= b@.len() && (v as nat) < pow16(w as nat) && b@.subrange(
                pos as int,
                p as int,
            ) == hex_fixed(v as nat, w as nat),
            None => forall|v: nat| v < pow16(w as nat) && pos + w <= b@.len() ==> b@.subrange(pos as int, pos + w)
                != #[trigger] hex_fixed(v, w as nat),
        },
{
    let n = b.len();
    if w > n || pos > n - w {
        return None;
    }
    proof {
        reveal_with_fuel(pow16, 33);
    }
    let mut x: u128 = 0;
    let mut i: usize = 0;
    while i < w
        invariant
            w <= 32,
            n == b@.len(),
            pos + w <= n,
            i <= w,
            (x as nat) < pow16(i as nat),
            pow16(i as nat) <= pow16(32),
            pow16(32) == 0x1_0000_0000_0000_0000_0000_0000_0000_0000nat,
            b@.subrange(pos as int, pos + i) == hex_fixed(x as nat, i as nat),
        decreases w - i,
    {
        match hex_digit(b[pos + i]) {
            Some(d) => {
                proof {
                    lemma_div_mod16(x as nat, d as nat);
                    assert((x as nat) * 16 + (d as nat) < pow16((i + 1) as nat)) by (nonlinear_arith)
                        requires (x as nat) < pow16(i as nat), (d as nat) < 16, pow16((i + 1) as nat) == 16 * pow16(i as nat);
                    assert(pow16((i + 1) as nat) <= pow16(32)) by {
                        lemma_pow16_mono((i + 1) as nat, 32);
                    }
                    assert(hex_fixed((x as nat) * 16 + (d as nat), (i + 1) as nat) == hex_fixed(x as nat, i as nat).push(
                        hex_char(d as nat),
                    ));
                    assert(b@.subrange(pos as int, pos + i + 1) =~= b@.subrange(pos as int, pos + i).push(b@[pos + i]));
                }
                x = x * 16 + d as u128;
                i = i + 1;
            },
            None => {
                proof {
                    assert forall|v: nat| v < pow16(w as nat) implies b@.subrange(pos as int, pos + w)
                        != #[trigger] hex_fixed(v, w as nat) by {
                        lemma_hex_fixed_valid(v, w as nat);
                        if b@.subrange(pos as int, pos + w) == hex_fixed(v, w as nat) {
                            assert(b@[pos + i] == hex_fixed(v, w as nat)[i as int]);
                        }
                    }
                }
                return None;
            },
        }
    }
    Some((x, pos + w))
}

proof fn lemma_pow16_small()
    ensures
        pow16(0) == 1,
        pow16(2) == 256,
        pow16(8) == 0x1_0000_0000,
        pow16(16) == 0x1_0000_0000_0000_0000,
        pow16(32) == 0x1_0000_0000_0000_0000_0000_0000_0000_0000,
{
    reveal_with_fuel(pow16, 33);
}

proof fn lemma_pow16_mono(a: nat, b: nat)
    requires
        a <= b,
    ensures
        pow16(a) <= pow16(b),
    decreases b,
{
    if a < b {
        lemma_pow16_mono(a, (b - 1) as nat);
    }
}

/// `b` holds `t` at position `pos`.
pub open spec fn at(b: Seq<u8>, pos: int, t: Seq<u8>) -> bool {
    0 <= pos && pos + t.len() <= b.len() && b.subrange(pos, pos + t.len()) == t
}

proof fn lemma_at_concat(b: Seq<u8>, pos: int, t1: Seq<u8>, t2: Seq<u8>)
    ensures
        at(b, pos, t1 + t2) == (at(b, pos, t1) && at(b, pos + t1.len(), t2)),
{
    if at(b, pos, t1) && at(b, pos + t1.len(), t2) {
        assert(b.subrange(pos, pos + (t1 + t2).len()) =~= t1 + t2);
    }
    if at(b, pos, t1 + t2) {
        assert(b.subrange(pos, pos + t1.len()) =~= (t1 + t2).subrange(0, t1.len() as int));
        assert((t1 + t2).subrange(0, t1.len() as int) =~= t1);
        assert(b.subrange(pos + t1.len(), pos + t1.len() + t2.len()) =~= (t1 + t2).subrange(
            t1.len() as int,
            (t1 + t2).len() as int,
        ));
        assert((t1 + t2).subrange(t1.len() as int, (t1 + t2).len() as int) =~= t2);
    }
}

/// Checks that `b` holds the bytes of `s` at `pos`; the position after them.
fn expect_str(b: &Vec<u8>, pos: usize, s: &str) -> (r: Option<usize>)
    ensures
        match r {
            Some(p) => p == pos + s.spec_bytes().len() && at(b@, pos as int, s.spec_bytes()),
            None => !at(b@, pos as int, s.spec_bytes()),
        },
{
    let t = s.as_bytes();
    let n = b.len();
    if t.len() > n || pos > n - t.len() {
        return None;
    }
    let mut i: usize = 0;
    while i < t.len()
        invariant
            t@ == s.spec_bytes(),
            n == b@.len(),
            pos + t@.len() <= n,
            i <= t@.len(),
            b@.subrange(pos as int, pos + i) == t@.subrange(0, i as int),
        decreases t@.len() - i,
    {
        if b[pos + i] != t[i] {
            assert(b@.subrange(pos as int, pos + t@.len())[i as int] == b@[pos + i]);
            return None;
        }
        assert(b@.subrange(pos as int, pos + i + 1) =~= t@.subrange(0, i + 1));
        i = i + 1;
    }
    assert(t@.subrange(0, i as int) =~= t@);
    Some(pos + t.len())
}

proof fn lemma_bytes_hex(c: Seq<u8>)
    ensures
        bytes_hex(c).len() == 2 * c.len(),
        forall|k: int| 0 <= k < c.len() ==> bytes_hex(c).subrange(2 * k, 2 * k + 2) == hex_fixed(#[trigger] c[k] as nat, 2),
        forall|i: int| 0 <= i < bytes_hex(c).len() ==> is_hex_char(#[trigger] bytes_hex(c)[i]),
    decreases c.len(),
{
    if c.len() > 0 {
        let d = c.drop_last();
        lemma_bytes_hex(d);
        lemma_hex_fixed_valid(c.last() as nat, 2);
        let h = bytes_hex(c);
        assert(h == bytes_hex(d) + hex_fixed(c.last() as nat, 2));
        assert forall|k: int| 0 <= k < c.len() implies h.subrange(2 * k, 2 * k + 2) == hex_fixed(#[trigger] c[k] as nat, 2) by {
            if k < c.len() - 1 {
                assert(d[k] == c[k]);
                assert(h.subrange(2 * k, 2 * k + 2) =~= bytes_hex(d).subrange(2 * k, 2 * k + 2));
            } else {
                assert(h.subrange(2 * k, 2 * k + 2) =~= hex_fixed(c.last() as nat, 2));
            }
        }
        assert forall|i: int| 0 <= i < h.len() implies is_hex_char(#[trigger] h[i]) by {
            if i < bytes_hex(d).len() {
                assert(h[i] == bytes_hex(d)[i]);
            } else {
                assert(h[i] == hex_fixed(c.last() as nat, 2)[i - bytes_hex(d).len()]);
            }
        }
    }
}

/// The code text that starts at `pos`: hexadecimal byte pairs up to a quote.
pub open spec fn code_at(b: Seq<u8>, pos: int, c: Seq<u8>) -> bool {
    at(b, pos, bytes_hex(c)) && pos + 2 * c.len() < b.len() && b[pos + 2 * c.len()] == 34
}

/// Reads hexadecimal byte pairs at `pos` up to the next quote: the bytes
/// and the position of the quote.
fn parse_code(b: &Vec<u8>, pos: usize) -> (r: Option<(Vec<u8>, usize)>)
    ensures
        match r {
            Some((c, p)) => p == pos + 2 * c@.len() && code_at(b@, pos as int, c@) && forall|c2: Seq<u8>|
                #[trigger] code_at(b@, pos as int, c2) ==> c2 == c@,
            None => forall|c: Seq<u8>| !code_at(b@, pos as int, c),
        },
{
    let n = b.len();
    if pos > n {
        return None;
    }
    let mut out: Vec<u8> = Vec::new();
    let mut p: usize = pos;
    proof {
        lemma_pow16_small();
        assert(bytes_hex(out@) =~= Seq::<u8>::empty());
        assert(b@.subrange(pos as int, pos as int) =~= Seq::<u8>::empty());
        assert forall|c: Seq<u8>| #[trigger] code_at(b@, pos as int, c) implies out@.len() <= c.len() && out@ == c.take(out@.len() as int) by {
            assert(c.take(0) =~= out@);
        }
    }
    while p < n && b[p] != 34
        invariant
            n == b@.len(),
            pos <= p,
            p == pos + 2 * out@.len(),
            at(b@, pos as int, bytes_hex(out@)),
            forall|c: Seq<u8>| #[trigger] code_at(b@, pos as int, c) ==> out@.len() <= c.len() && out@ == c.take(out@.len() as int),
        decreases n - p,
    {
        let ghost before = out@;
        match parse_hex(b, p, 2) {
            Some((v, q)) => {
                proof {
                    lemma_pow16_small();
                }
                let byte = v as u8;
                out.push(byte);
                proof {
                    assert(bytes_hex(out@) == bytes_hex(before) + hex_fixed(byte as nat, 2)) by {
                        assert(out@.drop_last() =~= before);
                    }
                    lemma_bytes_hex(before);
                    lemma_at_concat(b@, pos as int, bytes_hex(before), hex_fixed(byte as nat, 2));
                    assert forall|c: Seq<u8>| #[trigger] code_at(b@, pos as int, c) implies out@.len() <= c.len() && out@ == c.take(out@.len() as int) by {
                        lemma_bytes_hex(c);
                        let k = before.len() as int;
                        if k == c.len() {
                            assert(b@[pos + 2 * c.len()] == 34);
                        }
                        assert(k < c.len());
                        assert(b@.subrange(pos as int, pos + bytes_hex(c).len()) == bytes_hex(c));
                        assert(b@.subrange(p as int, p + 2) =~= bytes_hex(c).subrange(2 * k, 2 * k + 2));
                        assert(hex_fixed(c[k] as nat, 2) == hex_fixed(v as nat, 2));
                        lemma_pow16_small();
                        lemma_hex_fixed_injective(c[k] as nat, v as nat, 2);
                        assert(out@ =~= c.take(k + 1));
                    }
                }
                p = q;
            },
            None => {
                proof {
                    assert forall|c: Seq<u8>| !code_at(b@, pos as int, c) by {
                        if code_at(b@, pos as int, c) {
                            lemma_bytes_hex(c);
                            let k = before.len() as int;
                            if k == c.len() {
                                assert(b@[pos + 2 * c.len()] == 34);
                            }
                            assert(b@.subrange(pos as int, pos + bytes_hex(c).len()) == bytes_hex(c));
                            assert(b@.subrange(p as int, p + 2) =~= bytes_hex(c).subrange(2 * k, 2 * k + 2));
                            lemma_pow16_small();
                            assert((c[k] as nat) < pow16(2));
                        }
                    }
                }
                return None;
            },
        }
    }
    if p >= n {
        proof {
            assert forall|c: Seq<u8>| !code_at(b@, pos as int, c) by {
                if code_at(b@, pos as int, c) {
                    lemma_bytes_hex(c);
                }
            }
        }
        return None;
    }
    proof {
        assert forall|c: Seq<u8>| #[trigger] code_at(b@, pos as int, c) implies c == out@ by {
            lemma_bytes_hex(c);
            let k = out@.len() as int;
            if k < c.len() {
                assert(b@.subrange(pos as int, pos + bytes_hex(c).len()) == bytes_hex(c));
                assert(b@[p as int] == bytes_hex(c)[2 * k]);
                assert(is_hex_char(bytes_hex(c)[2 * k]));
            }
            assert(c =~= c.take(k));
        }
    }
    Some((out, p))
}

proof fn lemma_literal_bytes()
    ensures
        "\"".spec_bytes() == Seq::<u8>::empty().push(34),
        ",".spec_bytes() == Seq::<u8>::empty().push(44),
        "\"0x".spec_bytes().len() == 3 && "\"0x".spec_bytes()[0] == 34,
        "}".spec_bytes() == Seq::<u8>::empty().push(125),
        ":".spec_bytes() == Seq::<u8>::empty().push(58),
        ":{".spec_bytes().len() == 2,
        "}}".spec_bytes().len() == 2 && "}}".spec_bytes()[0] == 125,
        "},\"storage\":{".spec_bytes().len() > 0 && "},\"storage\":{".spec_bytes()[0] == 125,
        "},\"block_hashes\":{".spec_bytes().len() > 0 && "},\"block_hashes\":{".spec_bytes()[0] == 125,
{
    broadcast use vstd::string::is_ascii_spec_bytes;
    reveal_strlit("\"");
    reveal_strlit(",");
    reveal_strlit("\"0x");
    reveal_strlit("}");
    reveal_strlit(":");
    reveal_strlit(":{");
    assert(vstd::string::is_ascii(":"));
    assert(vstd::string::is_ascii(":{"));
    assert(":".spec_bytes() =~= Seq::<u8>::empty().push(58));
    reveal_strlit("}}");
    reveal_strlit("},\"storage\":{");
    reveal_strlit("},\"block_hashes\":{");
    assert(vstd::string::is_ascii("\""));
    assert(vstd::string::is_ascii(","));
    assert(vstd::string::is_ascii("\"0x"));
    assert(vstd::string::is_ascii("}"));
    assert(vstd::string::is_ascii("}}"));
    assert(vstd::string::is_ascii("},\"storage\":{"));
    assert(vstd::string::is_ascii("},\"block_hashes\":{"));
    assert("\"".spec_bytes() =~= Seq::<u8>::empty().push(34));
    assert(",".spec_bytes() =~= Seq::<u8>::empty().push(44));
    assert("}".spec_bytes() =~= Seq::<u8>::empty().push(125));
}

/// A quoted, `0x`-prefixed pair of hexadecimal numbers of `w1` and `w2`
/// digits.
pub open spec fn pair_text(hi: nat, lo: nat, w1: nat, w2: nat) -> Seq<u8> {
    quoted_hex(hex_fixed(hi, w1) + hex_fixed(lo, w2))
}

proof fn lemma_pair_text(hi: nat, lo: nat, w1: nat, w2: nat)
    ensures
        pair_text(hi, lo, w1, w2) == "\"0x".spec_bytes() + (hex_fixed(hi, w1) + (hex_fixed(lo, w2) + "\"".spec_bytes())),
        pair_text(hi, lo, w1, w2).len() == 4 + w1 + w2,
{
    lemma_literal_bytes();
    lemma_hex_fixed_valid(hi, w1);
    lemma_hex_fixed_valid(lo, w2);
    assert(pair_text(hi, lo, w1, w2) =~= "\"0x".spec_bytes() + (hex_fixed(hi, w1) + (hex_fixed(lo, w2)
        + "\"".spec_bytes())));
}

/// Reads a quoted pair of hexadecimal numbers of `w1` and `w2` digits at
/// `pos`.
fn parse_pair(b: &Vec<u8>, pos: usize, w1: usize, w2: usize) -> (r: Option<(u128, u128, usize)>)
    requires
        w1 <= 32,
        w2 <= 32,
    ensures
        match r {
            Some((hi, lo, p)) => {
                &&& (hi as nat) < pow16(w1 as nat)
                &&& (lo as nat) < pow16(w2 as nat)
                &&& p == pos + 4 + w1 + w2
                &&& at(b@, pos as int, pair_text(hi as nat, lo as nat, w1 as nat, w2 as nat))
                &&& forall|h2: nat, l2: nat|
                    h2 < pow16(w1 as nat) && l2 < pow16(w2 as nat) && #[trigger] at(
                        b@,
                        pos as int,
                        pair_text(h2, l2, w1 as nat, w2 as nat),
                    ) ==> h2 == hi && l2 == lo
            },
            None => forall|h2: nat, l2: nat|
                h2 < pow16(w1 as nat) && l2 < pow16(w2 as nat) ==> !#[trigger] at(
                    b@,
                    pos as int,
                    pair_text(h2, l2, w1 as nat, w2 as nat),
                ),
        },
{
    proof {
        lemma_literal_bytes();
        assert forall|h2: nat, l2: nat| #[trigger] at(b@, pos as int, pair_text(h2, l2, w1 as nat, w2 as nat)) implies {
            &&& at(b@, pos as int, "\"0x".spec_bytes())
            &&& at(b@, pos + 3, hex_fixed(h2, w1 as nat))
            &&& at(b@, pos + 3 + w1, hex_fixed(l2, w2 as nat))
            &&& at(b@, pos + 3 + w1 + w2, "\"".spec_bytes())
        } by {
            lemma_pair_text(h2, l2, w1 as nat, w2 as nat);
            lemma_hex_fixed_valid(h2, w1 as nat);
            lemma_hex_fixed_valid(l2, w2 as nat);
            lemma_at_concat(b@, pos as int, "\"0x".spec_bytes(), hex_fixed(h2, w1 as nat) + (hex_fixed(l2, w2 as nat) + "\"".spec_bytes()));
            lemma_at_concat(b@, pos + 3, hex_fixed(h2, w1 as nat), hex_fixed(l2, w2 as nat) + "\"".spec_bytes());
            lemma_at_concat(b@, pos + 3 + w1, hex_fixed(l2, w2 as nat), "\"".spec_bytes());
        }
    }
    let p1 = match expect_str(b, pos, "\"0x") {
        Some(p1) => p1,
        None => return None,
    };
    let (hi, p2) = match parse_hex(b, p1, w1) {
        Some(x) => x,
        None => {
            proof {
                assert forall|h2: nat, l2: nat| h2 < pow16(w1 as nat) && l2 < pow16(w2 as nat) implies !#[trigger] at(
                    b@,
                    pos as int,
                    pair_text(h2, l2, w1 as nat, w2 as nat),
                ) by {
                    lemma_hex_fixed_valid(h2, w1 as nat);
                    if at(b@, pos as int, pair_text(h2, l2, w1 as nat, w2 as nat)) {
                        assert(b@.subrange(p1 as int, p1 + w1) == hex_fixed(h2, w1 as nat));
                    }
                }
            }
            return None;
        },
    };
    let (lo, p3) = match parse_hex(b, p2, w2) {
        Some(x) => x,
        None => {
            proof {
                assert forall|h2: nat, l2: nat| h2 < pow16(w1 as nat) && l2 < pow16(w2 as nat) implies !#[trigger] at(
                    b@,
                    pos as int,
                    pair_text(h2, l2, w1 as nat, w2 as nat),
                ) by {
                    lemma_hex_fixed_valid(l2, w2 as nat);
                    lemma_hex_fixed_valid(h2, w1 as nat);
                    if at(b@, pos as int, pair_text(h2, l2, w1 as nat, w2 as nat)) {
                        assert(b@.subrange(p1 as int, p1 + w1) == hex_fixed(h2, w1 as nat));
                        lemma_hex_fixed_injective(h2, hi as nat, w1 as nat);
                        assert(b@.subrange(p2 as int, p2 + w2) == hex_fixed(l2, w2 as nat));
                    }
                }
            }
            return None;
        },
    };
    let p4 = match expect_str(b, p3, "\"") {
        Some(p4) => p4,
        None => return None,
    };
    proof {
        lemma_pair_text(hi as nat, lo as nat, w1 as nat, w2 as nat);
        lemma_hex_fixed_valid(hi as nat, w1 as nat);
        lemma_hex_fixed_valid(lo as nat, w2 as nat);
        lemma_at_concat(b@, p3 as int, hex_fixed(lo as nat, w2 as nat), "\"".spec_bytes());
        lemma_at_concat(b@, p2 as int, hex_fixed(lo as nat, w2 as nat), "\"".spec_bytes());
        lemma_at_concat(b@, p1 as int, hex_fixed(hi as nat, w1 as nat), hex_fixed(lo as nat, w2 as nat) + "\"".spec_bytes());
        lemma_at_concat(b@, pos as int, "\"0x".spec_bytes(), hex_fixed(hi as nat, w1 as nat) + (hex_fixed(lo as nat, w2 as nat) + "\"".spec_bytes()));
        assert forall|h2: nat, l2: nat|
            h2 < pow16(w1 as nat) && l2 < pow16(w2 as nat) && #[trigger] at(b@, pos as int, pair_text(h2, l2, w1 as nat, w2 as nat))
        implies h2 == hi && l2 == lo by {
            lemma_hex_fixed_valid(h2, w1 as nat);
            lemma_hex_fixed_valid(l2, w2 as nat);
            lemma_hex_fixed_injective(h2, hi as nat, w1 as nat);
            lemma_hex_fixed_injective(l2, lo as nat, w2 as nat);
        }
    }
    Some((hi, lo, p4))
}

/// Piece `k` of an account record.
pub open spec fn account_piece(a: Address, acc: AccountView, k: int) -> Seq<u8> {
    if k == 0 {
        pair_text(a.hi as nat, a.lo as nat, 8, 32)
    } else if k == 1 {
        ":{\"balance\":".spec_bytes()
    } else if k == 2 {
        pair_text(acc.balance.hi as nat, acc.balance.lo as nat, 32, 32)
    } else if k == 3 {
        ",\"nonce\":".spec_bytes()
    } else if k == 4 {
        pair_text(acc.nonce as nat, 0, 16, 0)
    } else if k == 5 {
        ",\"code\":".spec_bytes()
    } else if k == 6 {
        "\"0x".spec_bytes()
    } else if k == 7 {
        bytes_hex(acc.code)
    } else if k == 8 {
        "\"".spec_bytes()
    } else if k == 9 {
        ",\"code_hash\":".spec_bytes()
    } else if k == 10 {
        pair_text(acc.code_hash.hi as nat, acc.code_hash.lo as nat, 32, 32)
    } else {
        "}".spec_bytes()
    }
}

/// An account record from piece `k` on.
pub open spec fn account_tail(a: Address, acc: AccountView, k: int) -> Seq<u8>
    decreases 11 - k,
{
    if k >= 11 {
        account_piece(a, acc, 11)
    } else {
        account_piece(a, acc, k) + account_tail(a, acc, k + 1)
    }
}

proof fn lemma_account_tail(b: Seq<u8>, p: int, a: Address, acc: AccountView, k: int)
    requires
        0 <= k < 11,
    ensures
        at(b, p, account_tail(a, acc, k)) == (at(b, p, account_piece(a, acc, k)) && at(
            b,
            p + account_piece(a, acc, k).len(),
            account_tail(a, acc, k + 1),
        )),
{
    lemma_at_concat(b, p, account_piece(a, acc, k), account_tail(a, acc, k + 1));
}

proof fn lemma_account_text_tail(a: Address, acc: AccountView)
    ensures
        account_text(a, acc) == account_tail(a, acc, 0),
{
    reveal_with_fuel(account_tail, 12);
}

proof fn lemma_account_pieces(a: Address, acc: AccountView)
    ensures
        account_piece(a, acc, 0) == pair_text(a.hi as nat, a.lo as nat, 8, 32),
        account_piece(a, acc, 0).len() == 44,
        account_piece(a, acc, 2) == pair_text(acc.balance.hi as nat, acc.balance.lo as nat, 32, 32),
        account_piece(a, acc, 2).len() == 68,
        account_piece(a, acc, 4) == pair_text(acc.nonce as nat, 0, 16, 0),
        account_piece(a, acc, 4).len() == 20,
        account_piece(a, acc, 7) == bytes_hex(acc.code),
        account_piece(a, acc, 7).len() == 2 * acc.code.len(),
        account_piece(a, acc, 10) == pair_text(acc.code_hash.hi as nat, acc.code_hash.lo as nat, 32, 32),
        account_piece(a, acc, 10).len() == 68,
        (a.hi as nat) < pow16(8),
        (acc.nonce as nat) < pow16(16),
        (a.lo as nat) < pow16(32),
        (acc.balance.hi as nat) < pow16(32),
        (acc.balance.lo as nat) < pow16(32),
        (acc.code_hash.hi as nat) < pow16(32),
        (acc.code_hash.lo as nat) < pow16(32),
        0 < pow16(0),
{
    lemma_pow16_small();
    reveal_with_fuel(pow16, 2);
    lemma_pair_text(a.hi as nat, a.lo as nat, 8, 32);
    lemma_pair_text(acc.balance.hi as nat, acc.balance.lo as nat, 32, 32);
    lemma_pair_text(acc.nonce as nat, 0, 16, 0);
    lemma_pair_text(acc.code_hash.hi as nat, acc.code_hash.lo as nat, 32, 32);
    lemma_bytes_hex(acc.code);
}

proof fn lemma_account_length(a: Address, acc: AccountView)
    ensures
        account_text(a, acc).len() == 44 + ":{\"balance\":".spec_bytes().len() + 68 + ",\"nonce\":".spec_bytes().len() + 20
            + ",\"code\":".spec_bytes().len() + 3 + 2 * acc.code.len() + 1 + ",\"code_hash\":".spec_bytes().len() + 68 + 1,
{
    lemma_literal_bytes();
    lemma_pair_text(a.hi as nat, a.lo as nat, 8, 32);
    lemma_pair_text(acc.balance.hi as nat, acc.balance.lo as nat, 32, 32);
    lemma_pair_text(acc.nonce as nat, 0, 16, 0);
    lemma_pair_text(acc.code_hash.hi as nat, acc.code_hash.lo as nat, 32, 32);
    lemma_bytes_hex(acc.code);
}

/// Reads an account record at `pos`: its address, the account, and the
/// position after it.
/// Reads the address, balance and nonce of an account record at `pos`, up to
/// the start of its code digits.
#[verifier::rlimit(100)]
#[verifier::spinoff_prover]
fn parse_account_front(b: &Vec<u8>, pos: usize) -> (r: Option<(u128, u128, u128, u128, u128, usize)>)
    ensures
        match r {
            Some((ahi, alo, bhi, blo, nonce, p7)) => {
                &&& p7 == pos + 44 + ":{\"balance\":".spec_bytes().len() + 68 + ",\"nonce\":".spec_bytes().len() + 20 + ",\"code\":".spec_bytes().len() + 3
                &&& ahi < 0x1_0000_0000 && nonce < 0x1_0000_0000_0000_0000
                &&& forall|a2: Address, acc2: AccountView| #[trigger] at(b@, pos as int, account_text(a2, acc2)) ==> (a2.hi as nat == ahi as nat && a2.lo as nat == alo as nat && acc2.balance.hi as nat == bhi as nat && acc2.balance.lo as nat == blo as nat && acc2.nonce as nat == nonce as nat) && at(b@, p7 as int, account_tail(a2, acc2, 7))
                &&& forall|a2: Address, acc2: AccountView| (a2.hi as nat == ahi as nat && a2.lo as nat == alo as nat && acc2.balance.hi as nat == bhi as nat && acc2.balance.lo as nat == blo as nat && acc2.nonce as nat == nonce as nat) && #[trigger] at(b@, p7 as int, account_tail(a2, acc2, 7)) ==> at(b@, pos as int, account_text(a2, acc2))
            },
            None => forall|a2: Address, acc2: AccountView| !#[trigger] at(b@, pos as int, account_text(a2, acc2)),
        },
{
    let p0 = pos;
    proof {
        assert forall|a2: Address, acc2: AccountView| #[trigger] at(b@, pos as int, account_text(a2, acc2)) implies at(b@, p0 as int, account_tail(a2, acc2, 0)) by {
            lemma_account_text_tail(a2, acc2);
        }
    }
    let (ahi, alo, p1) = match parse_pair(b, p0, 8, 32) {
        Some(x) => x,
        None => {
            proof {
                assert forall|a2: Address, acc2: AccountView| !#[trigger] at(b@, pos as int, account_text(a2, acc2)) by {
                    if at(b@, pos as int, account_text(a2, acc2)) {
                        lemma_pow16_small();
                        lemma_literal_bytes();
                        lemma_account_pieces(a2, acc2);
                        
                        lemma_account_tail(b@, p0 as int, a2, acc2, 0);
                        
                    }
                }
            }
            return None;
        },
    };
    proof {
        assert forall|a2: Address, acc2: AccountView| #[trigger] at(b@, pos as int, account_text(a2, acc2)) implies (a2.hi as nat == ahi as nat && a2.lo as nat == alo as nat) && at(b@, p1 as int, account_tail(a2, acc2, 1)) by {
            lemma_pow16_small();
            lemma_literal_bytes();
            lemma_account_pieces(a2, acc2);
            
            lemma_account_tail(b@, p0 as int, a2, acc2, 0);
            
        }
    }
    let p2 = match expect_str(b, p1, ":{\"balance\":") {
        Some(q) => q,
        None => {
            proof {
                assert forall|a2: Address, acc2: AccountView| !#[trigger] at(b@, pos as int, account_text(a2, acc2)) by {
                    if at(b@, pos as int, account_text(a2, acc2)) {
                        lemma_pow16_small();
                        lemma_literal_bytes();
                        lemma_account_pieces(a2, acc2);
                        
                        lemma_account_tail(b@, p1 as int, a2, acc2, 1);
                        
                    }
                }
            }
            return None;
        },
    };
    proof {
        assert forall|a2: Address, acc2: AccountView| #[trigger] at(b@, pos as int, account_text(a2, acc2)) implies (a2.hi as nat == ahi as nat && a2.lo as nat == alo as nat) && at(b@, p2 as int, account_tail(a2, acc2, 2)) by {
            lemma_pow16_small();
            lemma_literal_bytes();
            lemma_account_pieces(a2, acc2);
            
            lemma_account_tail(b@, p1 as int, a2, acc2, 1);
            
        }
    }
    let (bhi, blo, p3) = match parse_pair(b, p2, 32, 32) {
        Some(x) => x,
        None => {
            proof {
                assert forall|a2: Address, acc2: AccountView| !#[trigger] at(b@, pos as int, account_text(a2, acc2)) by {
                    if at(b@, pos as int, account_text(a2, acc2)) {
                        lemma_pow16_small();
                        lemma_literal_bytes();
                        lemma_account_pieces(a2, acc2);
                        
                        lemma_account_tail(b@, p2 as int, a2, acc2, 2);
                        
                    }
                }
            }
            return None;
        },
    };
    proof {
        assert forall|a2: Address, acc2: AccountView| #[trigger] at(b@, pos as int, account_text(a2, acc2)) implies (a2.hi as nat == ahi as nat && a2.lo as nat == alo as nat && acc2.balance.hi as nat == bhi as nat && acc2.balance.lo as nat == blo as nat) && at(b@, p3 as int, account_tail(a2, acc2, 3)) by {
            lemma_pow16_small();
            lemma_literal_bytes();
            lemma_account_pieces(a2, acc2);
            
            lemma_account_tail(b@, p2 as int, a2, acc2, 2);
            
        }
    }
    let p4 = match expect_str(b, p3, ",\"nonce\":") {
        Some(q) => q,
        None => {
            proof {
                assert forall|a2: Address, acc2: AccountView| !#[trigger] at(b@, pos as int, account_text(a2, acc2)) by {
                    if at(b@, pos as int, account_text(a2, acc2)) {
                        lemma_pow16_small();
                        lemma_literal_bytes();
                        lemma_account_pieces(a2, acc2);
                        
                        lemma_account_tail(b@, p3 as int, a2, acc2, 3);
                        
                    }
                }
            }
            return None;
        },
    };
    proof {
        assert forall|a2: Address, acc2: AccountView| #[trigger] at(b@, pos as int, account_text(a2, acc2)) implies (a2.hi as nat == ahi as nat && a2.lo as nat == alo as nat && acc2.balance.hi as nat == bhi as nat && acc2.balance.lo as nat == blo as nat) && at(b@, p4 as int, account_tail(a2, acc2, 4)) by {
            lemma_pow16_small();
            lemma_literal_bytes();
            lemma_account_pieces(a2, acc2);
            
            lemma_account_tail(b@, p3 as int, a2, acc2, 3);
            
        }
    }
    let (nonce, zero, p5) = match parse_pair(b, p4, 16, 0) {
        Some(x) => x,
        None => {
            proof {
                assert forall|a2: Address, acc2: AccountView| !#[trigger] at(b@, pos as int, account_text(a2, acc2)) by {
                    if at(b@, pos as int, account_text(a2, acc2)) {
                        lemma_pow16_small();
                        lemma_literal_bytes();
                        lemma_account_pieces(a2, acc2);
                        
                        lemma_account_tail(b@, p4 as int, a2, acc2, 4);
                        
                    }
                }
            }
            return None;
        },
    };
    proof {
        assert forall|a2: Address, acc2: AccountView| #[trigger] at(b@, pos as int, account_text(a2, acc2)) implies (a2.hi as nat == ahi as nat && a2.lo as nat == alo as nat && acc2.balance.hi as nat == bhi as nat && acc2.balance.lo as nat == blo as nat && acc2.nonce as nat == nonce as nat) && at(b@, p5 as int, account_tail(a2, acc2, 5)) by {
            lemma_pow16_small();
            lemma_literal_bytes();
            lemma_account_pieces(a2, acc2);
            
            lemma_account_tail(b@, p4 as int, a2, acc2, 4);
            
        }
    }
    let p6 = match expect_str(b, p5, ",\"code\":") {
        Some(q) => q,
        None => {
            proof {
                assert forall|a2: Address, acc2: AccountView| !#[trigger] at(b@, pos as int, account_text(a2, acc2)) by {
                    if at(b@, pos as int, account_text(a2, acc2)) {
                        lemma_pow16_small();
                        lemma_literal_bytes();
                        lemma_account_pieces(a2, acc2);
                        
                        lemma_account_tail(b@, p5 as int, a2, acc2, 5);
                        
                    }
                }
            }
            return None;
        },
    };
    proof {
        assert forall|a2: Address, acc2: AccountView| #[trigger] at(b@, pos as int, account_text(a2, acc2)) implies (a2.hi as nat == ahi as nat && a2.lo as nat == alo as nat && acc2.balance.hi as nat == bhi as nat && acc2.balance.lo as nat == blo as nat && acc2.nonce as nat == nonce as nat) && at(b@, p6 as int, account_tail(a2, acc2, 6)) by {
            lemma_pow16_small();
            lemma_literal_bytes();
            lemma_account_pieces(a2, acc2);
            
            lemma_account_tail(b@, p5 as int, a2, acc2, 5);
            
        }
    }
    let p7 = match expect_str(b, p6, "\"0x") {
        Some(q) => q,
        None => {
            proof {
                assert forall|a2: Address, acc2: AccountView| !#[trigger] at(b@, pos as int, account_text(a2, acc2)) by {
                    if at(b@, pos as int, account_text(a2, acc2)) {
                        lemma_pow16_small();
                        lemma_literal_bytes();
                        lemma_account_pieces(a2, acc2);
                        
                        lemma_account_tail(b@, p6 as int, a2, acc2, 6);
                        
                    }
                }
            }
            return None;
        },
    };
    proof {
        assert forall|a2: Address, acc2: AccountView| #[trigger] at(b@, pos as int, account_text(a2, acc2)) implies (a2.hi as nat == ahi as nat && a2.lo as nat == alo as nat && acc2.balance.hi as nat == bhi as nat && acc2.balance.lo as nat == blo as nat && acc2.nonce as nat == nonce as nat) && at(b@, p7 as int, account_tail(a2, acc2, 7)) by {
            lemma_pow16_small();
            lemma_literal_bytes();
            lemma_account_pieces(a2, acc2);
            
            lemma_account_tail(b@, p6 as int, a2, acc2, 6);
            
        }
    }
    proof {
        lemma_literal_bytes();
        lemma_pow16_small();
        assert(zero == 0);
        assert forall|a2: Address, acc2: AccountView|
            (a2.hi as nat == ahi as nat && a2.lo as nat == alo as nat && acc2.balance.hi as nat == bhi as nat && acc2.balance.lo as nat == blo as nat && acc2.nonce as nat == nonce as nat) && #[trigger] at(b@, p7 as int, account_tail(a2, acc2, 7))
        implies at(b@, pos as int, account_text(a2, acc2)) by {
            lemma_pow16_small();
            lemma_account_pieces(a2, acc2);
            assert(zero == 0);
            lemma_account_text_tail(a2, acc2);
            lemma_account_tail(b@, p6 as int, a2, acc2, 6);
            lemma_account_tail(b@, p5 as int, a2, acc2, 5);
            lemma_account_tail(b@, p4 as int, a2, acc2, 4);
            lemma_account_tail(b@, p3 as int, a2, acc2, 3);
            lemma_account_tail(b@, p2 as int, a2, acc2, 2);
            lemma_account_tail(b@, p1 as int, a2, acc2, 1);
            lemma_account_tail(b@, p0 as int, a2, acc2, 0);
        }
    }
    Some((ahi, alo, bhi, blo, nonce, p7))
}

/// Reads an account record at `pos`: its address, the account, and the
/// position after it.
#[verifier::rlimit(100)]
#[verifier::spinoff_prover]
fn parse_account(b: &Vec<u8>, pos: usize) -> (r: Option<(Address, AccountInfo, usize)>)
    ensures
        match r {
            Some((a, acc, p)) => {
                &&& p == pos + account_text(a, acc@).len()
                &&& at(b@, pos as int, account_text(a, acc@))
                &&& forall|a2: Address, acc2: AccountView| #[trigger] at(b@, pos as int, account_text(a2, acc2)) ==> a2 == a && acc2 == acc@
            },
            None => forall|a2: Address, acc2: AccountView| !#[trigger] at(b@, pos as int, account_text(a2, acc2)),
        },
{
    let (ahi, alo, bhi, blo, nonce, p7) = match parse_account_front(b, pos) {
        Some(x) => x,
        None => return None,
    };
    let (code, p8) = match parse_code(b, p7) {
        Some(x) => x,
        None => {
            proof {
                assert forall|a2: Address, acc2: AccountView| !#[trigger] at(b@, pos as int, account_text(a2, acc2)) by {
                    if at(b@, pos as int, account_text(a2, acc2)) {
                        lemma_pow16_small();
                        lemma_literal_bytes();
                        lemma_account_pieces(a2, acc2);
                        
                        lemma_account_tail(b@, p7 as int, a2, acc2, 7);
                        lemma_bytes_hex(acc2.code); lemma_account_tail(b@, p7 + 2 * acc2.code.len(), a2, acc2, 8); assert(account_piece(a2, acc2, 8) == "\"".spec_bytes()); assert(b@.subrange(p7 + 2 * acc2.code.len(), p7 + 2 * acc2.code.len() + 1)[0] == b@[p7 + 2 * acc2.code.len()]); assert(code_at(b@, p7 as int, acc2.code));
                    }
                }
            }
            return None;
        },
    };
    proof {
        assert forall|a2: Address, acc2: AccountView| #[trigger] at(b@, pos as int, account_text(a2, acc2)) implies (acc2.code == code@) && at(b@, p8 as int, account_tail(a2, acc2, 8)) by {
            lemma_pow16_small();
            lemma_literal_bytes();
            lemma_account_pieces(a2, acc2);
            
            lemma_account_tail(b@, p7 as int, a2, acc2, 7);
            lemma_bytes_hex(acc2.code); lemma_account_tail(b@, p7 + 2 * acc2.code.len(), a2, acc2, 8); assert(account_piece(a2, acc2, 8) == "\"".spec_bytes()); assert(b@.subrange(p7 + 2 * acc2.code.len(), p7 + 2 * acc2.code.len() + 1)[0] == b@[p7 + 2 * acc2.code.len()]); assert(code_at(b@, p7 as int, acc2.code));
        }
    }
    let p9 = match expect_str(b, p8, "\"") {
        Some(q) => q,
        None => {
            proof {
                assert forall|a2: Address, acc2: AccountView| !#[trigger] at(b@, pos as int, account_text(a2, acc2)) by {
                    if at(b@, pos as int, account_text(a2, acc2)) {
                        lemma_pow16_small();
                        lemma_literal_bytes();
                        lemma_account_pieces(a2, acc2);
                        
                        lemma_account_tail(b@, p8 as int, a2, acc2, 8);
                        
                    }
                }
            }
            return None;
        },
    };
    proof {
        assert forall|a2: Address, acc2: AccountView| #[trigger] at(b@, pos as int, account_text(a2, acc2)) implies (acc2.code == code@) && at(b@, p9 as int, account_tail(a2, acc2, 9)) by {
            lemma_pow16_small();
            lemma_literal_bytes();
            lemma_account_pieces(a2, acc2);
            
            lemma_account_tail(b@, p8 as int, a2, acc2, 8);
            
        }
    }
    let p10 = match expect_str(b, p9, ",\"code_hash\":") {
        Some(q) => q,
        None => {
            proof {
                assert forall|a2: Address, acc2: AccountView| !#[trigger] at(b@, pos as int, account_text(a2, acc2)) by {
                    if at(b@, pos as int, account_text(a2, acc2)) {
                        lemma_pow16_small();
                        lemma_literal_bytes();
                        lemma_account_pieces(a2, acc2);
                        
                        lemma_account_tail(b@, p9 as int, a2, acc2, 9);
                        
                    }
                }
            }
            return None;
        },
    };
    proof {
        assert forall|a2: Address, acc2: AccountView| #[trigger] at(b@, pos as int, account_text(a2, acc2)) implies (acc2.code == code@) && at(b@, p10 as int, account_tail(a2, acc2, 10)) by {
            lemma_pow16_small();
            lemma_literal_bytes();
            lemma_account_pieces(a2, acc2);
            
            lemma_account_tail(b@, p9 as int, a2, acc2, 9);
            
        }
    }
    let (hhi, hlo, p11) = match parse_pair(b, p10, 32, 32) {
        Some(x) => x,
        None => {
            proof {
                assert forall|a2: Address, acc2: AccountView| !#[trigger] at(b@, pos as int, account_text(a2, acc2)) by {
                    if at(b@, pos as int, account_text(a2, acc2)) {
                        lemma_pow16_small();
                        lemma_literal_bytes();
                        lemma_account_pieces(a2, acc2);
                        
                        lemma_account_tail(b@, p10 as int, a2, acc2, 10);
                        
                    }
                }
            }
            return None;
        },
    };
    proof {
        assert forall|a2: Address, acc2: AccountView| #[trigger] at(b@, pos as int, account_text(a2, acc2)) implies (acc2.code == code@ && acc2.code_hash.hi as nat == hhi as nat && acc2.code_hash.lo as nat == hlo as nat) && at(b@, p11 as int, account_tail(a2, acc2, 11)) by {
            lemma_pow16_small();
            lemma_literal_bytes();
            lemma_account_pieces(a2, acc2);
            
            lemma_account_tail(b@, p10 as int, a2, acc2, 10);
            
        }
    }
    let p12 = match expect_str(b, p11, "}") {
        Some(q) => q,
        None => {
            proof {
                assert forall|a2: Address, acc2: AccountView| !#[trigger] at(b@, pos as int, account_text(a2, acc2)) by {
                    if at(b@, pos as int, account_text(a2, acc2)) {
                        lemma_pow16_small();
                        lemma_literal_bytes();
                        lemma_account_pieces(a2, acc2);
                        
                        
                        
                    }
                }
            }
            return None;
        },
    };
    let acc = AccountInfo {
        balance: U256 { hi: bhi, lo: blo },
        nonce: nonce as u64,
        code,
        code_hash: B256 { hi: hhi, lo: hlo },
    };
    let a = Address { hi: ahi as u32, lo: alo };
    proof {
        lemma_pow16_small();
        lemma_literal_bytes();
        lemma_account_pieces(a, acc@);
        assert(at(b@, p11 as int, account_tail(a, acc@, 11)));
        lemma_account_tail(b@, p10 as int, a, acc@, 10);
        lemma_account_tail(b@, p9 as int, a, acc@, 9);
        lemma_account_tail(b@, p8 as int, a, acc@, 8);
        lemma_account_tail(b@, p7 as int, a, acc@, 7);
        assert(at(b@, pos as int, account_text(a, acc@)));
        lemma_account_length(a, acc@);
        assert forall|a2: Address, acc2: AccountView| #[trigger] at(b@, pos as int, account_text(a2, acc2)) implies a2 == a && acc2 == acc@ by {
        }
    }
    Some((a, acc, p12))
}


/// Two quoted 64-digit numbers joined by a colon.
pub open spec fn word_pair_text(h1: nat, l1: nat, h2: nat, l2: nat) -> Seq<u8> {
    pair_text(h1, l1, 32, 32) + (":".spec_bytes() + pair_text(h2, l2, 32, 32))
}

/// Reads two quoted 64-digit numbers joined by a colon at `pos`.
fn parse_word_pair(b: &Vec<u8>, pos: usize) -> (r: Option<(u128, u128, u128, u128, usize)>)
    ensures
        match r {
            Some((h1, l1, h2, l2, p)) => {
                &&& p == pos + 137
                &&& at(b@, pos as int, word_pair_text(h1 as nat, l1 as nat, h2 as nat, l2 as nat))
                &&& forall|n1: nat, n2: nat, n3: nat, n4: nat|
                    n1 < pow16(32) && n2 < pow16(32) && n3 < pow16(32) && n4 < pow16(32) && #[trigger] at(
                        b@,
                        pos as int,
                        word_pair_text(n1, n2, n3, n4),
                    ) ==> n1 == h1 && n2 == l1 && n3 == h2 && n4 == l2
            },
            None => forall|n1: nat, n2: nat, n3: nat, n4: nat|
                n1 < pow16(32) && n2 < pow16(32) && n3 < pow16(32) && n4 < pow16(32) ==> !#[trigger] at(
                    b@,
                    pos as int,
                    word_pair_text(n1, n2, n3, n4),
                ),
        },
{
    proof {
        lemma_literal_bytes();
        assert forall|n1: nat, n2: nat, n3: nat, n4: nat| #[trigger] at(b@, pos as int, word_pair_text(n1, n2, n3, n4)) implies
            at(b@, pos as int, pair_text(n1, n2, 32, 32)) && at(b@, pos + 68, ":".spec_bytes()) && at(b@, pos + 69, pair_text(n3, n4, 32, 32)) by {
            lemma_pair_text(n1, n2, 32, 32);
            lemma_at_concat(b@, pos as int, pair_text(n1, n2, 32, 32), ":".spec_bytes() + pair_text(n3, n4, 32, 32));
            lemma_at_concat(b@, pos + 68, ":".spec_bytes(), pair_text(n3, n4, 32, 32));
        }
    }
    let (h1, l1, p1) = match parse_pair(b, pos, 32, 32) {
        Some(x) => x,
        None => return None,
    };
    let p2 = match expect_str(b, p1, ":") {
        Some(q) => q,
        None => return None,
    };
    let (h2, l2, p3) = match parse_pair(b, p2, 32, 32) {
        Some(x) => x,
        None => {
            proof {
                assert forall|n1: nat, n2: nat, n3: nat, n4: nat|
                    n1 < pow16(32) && n2 < pow16(32) && n3 < pow16(32) && n4 < pow16(32) implies !#[trigger] at(
                    b@,
                    pos as int,
                    word_pair_text(n1, n2, n3, n4),
                ) by {
                    if at(b@, pos as int, word_pair_text(n1, n2, n3, n4)) {
                        assert(at(b@, pos as int, pair_text(n1, n2, 32, 32)));
                    }
                }
            }
            return None;
        },
    };
    proof {
        lemma_pair_text(h1 as nat, l1 as nat, 32, 32);
        lemma_pair_text(h2 as nat, l2 as nat, 32, 32);
        lemma_at_concat(b@, p2 as int - 1, ":".spec_bytes(), pair_text(h2 as nat, l2 as nat, 32, 32));
        lemma_at_concat(b@, pos as int, pair_text(h1 as nat, l1 as nat, 32, 32), ":".spec_bytes() + pair_text(h2 as nat, l2 as nat, 32, 32));
        assert forall|n1: nat, n2: nat, n3: nat, n4: nat|
            n1 < pow16(32) && n2 < pow16(32) && n3 < pow16(32) && n4 < pow16(32) && #[trigger] at(b@, pos as int, word_pair_text(n1, n2, n3, n4))
        implies n1 == h1 && n2 == l1 && n3 == h2 && n4 == l2 by {
            assert(at(b@, pos as int, pair_text(n1, n2, 32, 32)));
            assert(at(b@, pos + 69, pair_text(n3, n4, 32, 32)));
        }
    }
    Some((h1, l1, h2, l2, p3))
}

/// A record of the cache file: what it stands for, its text, and a parser
/// that reads exactly that text.
pub trait Record: Sized {
    type V;

    spec fn rview(&self) -> Self::V;

    spec fn text(v: Self::V) -> Seq<u8>;

    proof fn lemma_text_quote(v: Self::V)
        ensures
            Self::text(v).len() > 0,
            Self::text(v)[0] == 34,
    ;

    fn parse(b: &Vec<u8>, pos: usize) -> (r: Option<(Self, usize)>)
        ensures
            match r {
                Some((x, p)) => {
                    &&& p == pos + Self::text(x.rview()).len()
                    &&& at(b@, pos as int, Self::text(x.rview()))
                    &&& forall|v: Self::V| #[trigger] at(b@, pos as int, Self::text(v)) ==> v == x.rview()
                },
                None => forall|v: Self::V| !#[trigger] at(b@, pos as int, Self::text(v)),
            },
    ;
}

impl Record for (U256, U256) {
    type V = (U256, U256);

    open spec fn rview(&self) -> (U256, U256) {
        *self
    }

    open spec fn text(v: (U256, U256)) -> Seq<u8> {
        slot_text(v.0, v.1)
    }

    proof fn lemma_text_quote(v: (U256, U256)) {
        lemma_literal_bytes();
        assert(slot_text(v.0, v.1)[0] == word_text(v.0)[0]);
    }

    fn parse(b: &Vec<u8>, pos: usize) -> (r: Option<(Self, usize)>) {
        proof {
            lemma_pow16_small();
            assert forall|v: (U256, U256)| slot_text(v.0, v.1) == word_pair_text(v.0.hi as nat, v.0.lo as nat, v.1.hi as nat, v.1.lo as nat) by {
                assert(slot_text(v.0, v.1) =~= word_pair_text(v.0.hi as nat, v.0.lo as nat, v.1.hi as nat, v.1.lo as nat));
            }
        }
        match parse_word_pair(b, pos) {
            Some((h1, l1, h2, l2, p)) => {
                let x = (U256 { hi: h1, lo: l1 }, U256 { hi: h2, lo: l2 });
                proof {
                    lemma_literal_bytes();
                    lemma_pair_text(h1 as nat, l1 as nat, 32, 32);
                    lemma_pair_text(h2 as nat, l2 as nat, 32, 32);
                    assert forall|v: (U256, U256)| #[trigger] at(b@, pos as int, slot_text(v.0, v.1)) implies v == x by {
                        assert(at(b@, pos as int, word_pair_text(v.0.hi as nat, v.0.lo as nat, v.1.hi as nat, v.1.lo as nat)));
                    }
                }
                Some((x, p))
            },
            None => {
                proof {
                    assert forall|v: (U256, U256)| !#[trigger] at(b@, pos as int, slot_text(v.0, v.1)) by {
                        if at(b@, pos as int, slot_text(v.0, v.1)) {
                            assert(at(b@, pos as int, word_pair_text(v.0.hi as nat, v.0.lo as nat, v.1.hi as nat, v.1.lo as nat)));
                        }
                    }
                }
                None
            },
        }
    }
}

impl Record for (U256, B256) {
    type V = (U256, B256);

    open spec fn rview(&self) -> (U256, B256) {
        *self
    }

    open spec fn text(v: (U256, B256)) -> Seq<u8> {
        block_hash_text(v.0, v.1)
    }

    proof fn lemma_text_quote(v: (U256, B256)) {
        lemma_literal_bytes();
        assert(block_hash_text(v.0, v.1)[0] == word_text(v.0)[0]);
    }

    fn parse(b: &Vec<u8>, pos: usize) -> (r: Option<(Self, usize)>) {
        proof {
            lemma_pow16_small();
            assert forall|v: (U256, B256)| block_hash_text(v.0, v.1) == word_pair_text(v.0.hi as nat, v.0.lo as nat, v.1.hi as nat, v.1.lo as nat) by {
                assert(block_hash_text(v.0, v.1) =~= word_pair_text(v.0.hi as nat, v.0.lo as nat, v.1.hi as nat, v.1.lo as nat));
            }
        }
        match parse_word_pair(b, pos) {
            Some((h1, l1, h2, l2, p)) => {
                let x = (U256 { hi: h1, lo: l1 }, B256 { hi: h2, lo: l2 });
                proof {
                    lemma_literal_bytes();
                    lemma_pair_text(h1 as nat, l1 as nat, 32, 32);
                    lemma_pair_text(h2 as nat, l2 as nat, 32, 32);
                    assert forall|v: (U256, B256)| #[trigger] at(b@, pos as int, block_hash_text(v.0, v.1)) implies v == x by {
                        assert(at(b@, pos as int, word_pair_text(v.0.hi as nat, v.0.lo as nat, v.1.hi as nat, v.1.lo as nat)));
                    }
                }
                Some((x, p))
            },
            None => {
                proof {
                    assert forall|v: (U256, B256)| !#[trigger] at(b@, pos as int, block_hash_text(v.0, v.1)) by {
                        if at(b@, pos as int, block_hash_text(v.0, v.1)) {
                            assert(at(b@, pos as int, word_pair_text(v.0.hi as nat, v.0.lo as nat, v.1.hi as nat, v.1.lo as nat)));
                        }
                    }
                }
                None
            },
        }
    }
}

impl Record for (Address, AccountInfo) {
    type V = (Address, AccountView);

    open spec fn rview(&self) -> (Address, AccountView) {
        (self.0, self.1@)
    }

    open spec fn text(v: (Address, AccountView)) -> Seq<u8> {
        account_text(v.0, v.1)
    }

    proof fn lemma_text_quote(v: (Address, AccountView)) {
        lemma_literal_bytes();
        lemma_pair_text(v.0.hi as nat, v.0.lo as nat, 8, 32);
        assert(account_text(v.0, v.1)[0] == pair_text(v.0.hi as nat, v.0.lo as nat, 8, 32)[0]);
    }

    fn parse(b: &Vec<u8>, pos: usize) -> (r: Option<(Self, usize)>) {
        match parse_account(b, pos) {
            Some((a, acc, p)) => Some(((a, acc), p)),
            None => None,
        }
    }
}


/// The views of a sequence of records.
pub open spec fn rviews<R: Record>(xs: Seq<R>) -> Seq<R::V> {
    xs.map_values(|x: R| x.rview())
}

/// The text of a list of records: their texts joined by commas.
pub open spec fn list_text<R: Record>(vs: Seq<R::V>) -> Seq<u8> {
    joined(vs.map_values(|v: R::V| R::text(v)))
}

/// `b` holds the list of records `vs` at `pos`, followed by a closing brace.
pub open spec fn list_at<R: Record>(b: Seq<u8>, pos: int, vs: Seq<R::V>) -> bool {
    &&& at(b, pos, list_text::<R>(vs))
    &&& pos + list_text::<R>(vs).len() < b.len()
    &&& b[pos + list_text::<R>(vs).len()] == 125
}

proof fn lemma_joined_split(parts: Seq<Seq<u8>>, k: int)
    requires
        0 < k < parts.len(),
    ensures
        joined(parts) == joined(parts.take(k)) + (",".spec_bytes() + joined(parts.skip(k))),
    decreases parts.len(),
{
    let n = parts.len() as int;
    let d = parts.drop_last();
    if k == n - 1 {
        assert(d =~= parts.take(k));
        assert(parts.skip(k).len() == 1);
        assert(joined(parts.skip(k)) == parts.skip(k)[0]);
        assert(parts.skip(k)[0] == parts.last());
        lemma_concat_associative(joined(d), ",".spec_bytes(), parts.last());
    } else {
        lemma_joined_split(d, k);
        assert(d.take(k) =~= parts.take(k));
        let sk = parts.skip(k);
        assert(sk.drop_last() =~= d.skip(k));
        assert(sk.last() == parts.last());
        assert(joined(sk) == joined(sk.drop_last()) + ",".spec_bytes() + sk.last());
        let a = joined(parts.take(k));
        let c = ",".spec_bytes();
        let m = joined(d.skip(k));
        let z = parts.last();
        assert(joined(parts) == (a + (c + m)) + c + z);
        assert((a + (c + m)) + c + z =~= a + (c + ((m + c) + z)));
    }
}

proof fn lemma_list_step<R: Record>(vs: Seq<R::V>, i: int)
    requires
        0 <= i < vs.len(),
    ensures
        list_text::<R>(vs.take(i + 1)) == if i == 0 {
            R::text(vs[0])
        } else {
            list_text::<R>(vs.take(i)) + ",".spec_bytes() + R::text(vs[i])
        },
        i + 1 < vs.len() ==> list_text::<R>(vs) == list_text::<R>(vs.take(i + 1)) + (",".spec_bytes() + joined(
            vs.map_values(|v: R::V| R::text(v)).skip(i + 1),
        )),
        i + 1 == vs.len() ==> list_text::<R>(vs) == list_text::<R>(vs.take(i + 1)),
        i + 1 < vs.len() ==> joined(vs.map_values(|v: R::V| R::text(v)).skip(i + 1)) == R::text(vs[i + 1]) + (if i
            + 2 < vs.len() {
            ",".spec_bytes() + joined(vs.map_values(|v: R::V| R::text(v)).skip(i + 2))
        } else {
            Seq::empty()
        }),
{
    let parts = vs.map_values(|v: R::V| R::text(v));
    assert(vs.take(i + 1).map_values(|v: R::V| R::text(v)) =~= parts.take(i + 1));
    assert(vs.take(i).map_values(|v: R::V| R::text(v)) =~= parts.take(i));
    lemma_joined_step(parts, i);
    if i + 1 < vs.len() {
        lemma_joined_split(parts, i + 1);
        let rest = parts.skip(i + 1);
        if i + 2 < vs.len() {
            lemma_joined_split(rest, 1);
            assert(rest.take(1) =~= Seq::empty().push(rest[0]));
            assert(rest.skip(1) =~= parts.skip(i + 2));
        } else {
            assert(rest.len() == 1);
            assert(rest[0] + Seq::<u8>::empty() =~= rest[0]);
        }
    } else {
        assert(parts.take(i + 1) =~= parts);
        assert(vs.take(i + 1) =~= vs);
    }
}

/// Reads a list of records joined by commas at `pos`, up to the closing
/// brace that follows it: the records, and the position of the brace.
fn parse_list<R: Record>(b: &Vec<u8>, pos: usize) -> (r: Option<(Vec<R>, usize)>)
    ensures
        match r {
            Some((xs, p)) => {
                &&& p == pos + list_text::<R>(rviews(xs@)).len()
                &&& list_at::<R>(b@, pos as int, rviews(xs@))
                &&& forall|vs: Seq<R::V>| #[trigger] list_at::<R>(b@, pos as int, vs) ==> vs == rviews(xs@)
            },
            None => forall|vs: Seq<R::V>| !#[trigger] list_at::<R>(b@, pos as int, vs),
        },
{
    let n = b.len();
    if pos >= n {
        return None;
    }
    let mut xs: Vec<R> = Vec::new();
    if b[pos] == 125 {
        proof {
            assert(rviews(xs@) =~= Seq::<R::V>::empty());
            assert(list_text::<R>(Seq::<R::V>::empty()) == Seq::<u8>::empty());
            assert(b@.subrange(pos as int, pos as int) =~= Seq::<u8>::empty());
            assert forall|vs: Seq<R::V>| #[trigger] list_at::<R>(b@, pos as int, vs) implies vs == rviews(xs@) by {
                if vs.len() > 0 {
                    lemma_list_step::<R>(vs, 0);
                    R::lemma_text_quote(vs[0]);
                    assert(vs.take(1).map_values(|v: R::V| R::text(v)) =~= Seq::empty().push(R::text(vs[0])));
                    if vs.len() > 1 {
                        lemma_at_concat(b@, pos as int, list_text::<R>(vs.take(1)), ",".spec_bytes() + joined(vs.map_values(|v: R::V| R::text(v)).skip(1)));
                    }
                    assert(b@[pos as int] == list_text::<R>(vs)[0]);
                }
                assert(vs =~= rviews(xs@));
            }
        }
        return Some((xs, pos));
    }
    proof {
        lemma_literal_bytes();
    }
    let (x0, p0) = match R::parse(b, pos) {
        Some(x) => x,
        None => {
            proof {
                assert forall|vs: Seq<R::V>| !#[trigger] list_at::<R>(b@, pos as int, vs) by {
                    if list_at::<R>(b@, pos as int, vs) {
                        if vs.len() == 0 {
                            assert(list_text::<R>(vs) =~= Seq::<u8>::empty());
                        } else {
                            lemma_list_step::<R>(vs, 0);
                            if vs.len() > 1 {
                                lemma_at_concat(b@, pos as int, list_text::<R>(vs.take(1)), ",".spec_bytes() + joined(vs.map_values(|v: R::V| R::text(v)).skip(1)));
                            }
                        }
                    }
                }
            }
            return None;
        },
    };
    xs.push(x0);
    let mut p: usize = p0;
    proof {
        assert(xs@.take(1) =~= xs@);
        assert(rviews(xs@) =~= Seq::empty().push(x0.rview()));
        assert(rviews(xs@).take(1) =~= rviews(xs@));
        lemma_list_step::<R>(rviews(xs@), 0);
        assert forall|vs: Seq<R::V>| #[trigger] list_at::<R>(b@, pos as int, vs) implies 1 <= vs.len() && rviews(xs@) == vs.take(1) && (1 < vs.len() ==> at(b@, p as int, ",".spec_bytes() + joined(vs.map_values(|v: R::V| R::text(v)).skip(1)))) && list_text::<R>(vs.take(1)) == list_text::<R>(rviews(xs@)) by {
            if vs.len() == 0 {
                assert(list_text::<R>(vs) =~= Seq::<u8>::empty());
                assert(b@.subrange(pos as int, pos as int) =~= Seq::<u8>::empty());
            }
            lemma_list_step::<R>(vs, 0);
            if vs.len() > 1 {
                lemma_at_concat(b@, pos as int, list_text::<R>(vs.take(1)), ",".spec_bytes() + joined(vs.map_values(|v: R::V| R::text(v)).skip(1)));
            }
            assert(vs[0] == x0.rview());
            assert(vs.take(1) =~= rviews(xs@));
        }
    }
    while p < n && b[p] == 44
        invariant
            n == b@.len(),
            xs@.len() >= 1,
            p == pos + list_text::<R>(rviews(xs@)).len(),
            at(b@, pos as int, list_text::<R>(rviews(xs@))),
            forall|vs: Seq<R::V>| #[trigger] list_at::<R>(b@, pos as int, vs) ==> xs@.len() <= vs.len() && rviews(xs@) == vs.take(xs@.len() as int) && (xs@.len() < vs.len() ==> at(b@, p as int, ",".spec_bytes() + joined(vs.map_values(|v: R::V| R::text(v)).skip(xs@.len() as int)))),
        decreases n - p,
    {
        let ghost i = xs@.len() as int;
        let ghost before = xs@;
        proof {
            lemma_literal_bytes();
        }
        let (x, q) = match R::parse(b, p + 1) {
            Some(x) => x,
            None => {
                proof {
                    assert forall|vs: Seq<R::V>| !#[trigger] list_at::<R>(b@, pos as int, vs) by {
                        if list_at::<R>(b@, pos as int, vs) {
                            if i == vs.len() {
                                assert(vs.take(i) =~= vs);
                                assert(rviews(before) == vs);
                                assert(b@[p as int] == 125);
                            } else {
                                lemma_list_step::<R>(vs, i - 1);
                                let rest = joined(vs.map_values(|v: R::V| R::text(v)).skip(i));
                                assert(at(b@, p as int, ",".spec_bytes() + rest));
                                lemma_at_concat(b@, p as int, ",".spec_bytes(), rest);
                                assert(at(b@, p + 1, rest));
                                if i + 1 < vs.len() {
                                    lemma_at_concat(b@, p + 1, R::text(vs[i]), ",".spec_bytes() + joined(vs.map_values(|v: R::V| R::text(v)).skip(i + 1)));
                                } else {
                                    assert(R::text(vs[i]) + Seq::<u8>::empty() =~= R::text(vs[i]));
                                }
                                assert(at(b@, p + 1, R::text(vs[i])));
                            }
                        }
                    }
                }
                return None;
            },
        };
        xs.push(x);
        proof {
            assert(rviews(xs@) =~= rviews(before).push(x.rview()));
            assert(rviews(xs@).take(i) =~= rviews(before));
            lemma_list_step::<R>(rviews(xs@), i);
            assert(rviews(xs@).take(i + 1) =~= rviews(xs@));
            assert(rviews(xs@)[i] == x.rview());
            assert(b@.subrange(p as int, p + 1) =~= ",".spec_bytes());
            assert(at(b@, p as int, ",".spec_bytes()));
            lemma_at_concat(b@, p as int, ",".spec_bytes(), R::text(x.rview()));
            lemma_at_concat(b@, pos as int, list_text::<R>(rviews(before)), ",".spec_bytes() + R::text(x.rview()));
            lemma_at_concat(b@, p as int, ",".spec_bytes(), R::text(x.rview()));
            assert(list_text::<R>(rviews(before)) + ",".spec_bytes() + R::text(x.rview()) =~= list_text::<R>(rviews(before)) + (",".spec_bytes() + R::text(x.rview())));
            assert forall|vs: Seq<R::V>| #[trigger] list_at::<R>(b@, pos as int, vs) implies xs@.len() <= vs.len() && rviews(xs@) == vs.take(xs@.len() as int) && (xs@.len() < vs.len() ==> at(b@, q as int, ",".spec_bytes() + joined(vs.map_values(|v: R::V| R::text(v)).skip(xs@.len() as int)))) by {
                if i == vs.len() {
                    assert(vs.take(i) =~= vs);
                    assert(rviews(before) == vs);
                    assert(b@[p as int] == 125);
                }
                lemma_list_step::<R>(vs, i - 1);
                let rest = joined(vs.map_values(|v: R::V| R::text(v)).skip(i));
                assert(at(b@, p as int, ",".spec_bytes() + rest));
                lemma_at_concat(b@, p as int, ",".spec_bytes(), rest);
                assert(at(b@, p + 1, rest));
                if i + 1 < vs.len() {
                    lemma_at_concat(b@, p + 1, R::text(vs[i]), ",".spec_bytes() + joined(vs.map_values(|v: R::V| R::text(v)).skip(i + 1)));
                } else {
                    assert(R::text(vs[i]) + Seq::<u8>::empty() =~= R::text(vs[i]));
                }
                assert(at(b@, p + 1, R::text(vs[i])));
                assert(vs[i] == x.rview());
                assert(vs.take(i + 1) =~= vs.take(i).push(vs[i]));
                assert(rviews(xs@) =~= vs.take(i + 1));
            }
        }
        p = q;
    }
    proof {
        lemma_literal_bytes();
    }
    if p >= n || b[p] != 125 {
        proof {
            assert forall|vs: Seq<R::V>| !#[trigger] list_at::<R>(b@, pos as int, vs) by {
                if list_at::<R>(b@, pos as int, vs) {
                    let i = xs@.len() as int;
                    if i == vs.len() {
                        assert(rviews(xs@) =~= vs);
                    } else {
                        assert(b@.subrange(p as int, p + 1)[0] == b@[p as int]);
                    }
                }
            }
        }
        return None;
    }
    proof {
        assert forall|vs: Seq<R::V>| #[trigger] list_at::<R>(b@, pos as int, vs) implies vs == rviews(xs@) by {
            let i = xs@.len() as int;
            if i < vs.len() {
                assert(b@.subrange(p as int, p + 1)[0] == b@[p as int]);
            }
            assert(vs =~= vs.take(i));
        }
    }
    Some((xs, p))
}


proof fn lemma_slots_text(a: Address, slots: Seq<(U256, U256)>)
    ensures
        slots_text(a, slots) == pair_text(a.hi as nat, a.lo as nat, 8, 32) + (":{".spec_bytes() + (list_text::<(U256, U256)>(
            slots,
        ) + "}".spec_bytes())),
{
    assert(slots.map_values(|s: (U256, U256)| slot_text(s.0, s.1)) =~= slots.map_values(
        |v: (U256, U256)| <(U256, U256) as Record>::text(v),
    ));
    assert(slots_text(a, slots) =~= pair_text(a.hi as nat, a.lo as nat, 8, 32) + (":{".spec_bytes() + (list_text::<
        (U256, U256),
    >(slots) + "}".spec_bytes())));
}

impl Record for (Address, Vec<(U256, U256)>) {
    type V = (Address, Seq<(U256, U256)>);

    open spec fn rview(&self) -> (Address, Seq<(U256, U256)>) {
        (self.0, self.1@)
    }

    open spec fn text(v: (Address, Seq<(U256, U256)>)) -> Seq<u8> {
        slots_text(v.0, v.1)
    }

    proof fn lemma_text_quote(v: (Address, Seq<(U256, U256)>)) {
        lemma_literal_bytes();
        lemma_pair_text(v.0.hi as nat, v.0.lo as nat, 8, 32);
        assert(slots_text(v.0, v.1)[0] == pair_text(v.0.hi as nat, v.0.lo as nat, 8, 32)[0]);
    }

    fn parse(b: &Vec<u8>, pos: usize) -> (r: Option<(Self, usize)>) {
        proof {
            lemma_literal_bytes();
            lemma_pow16_small();
            assert forall|v: (Address, Seq<(U256, U256)>)| #[trigger] at(b@, pos as int, slots_text(v.0, v.1)) implies {
                &&& at(b@, pos as int, pair_text(v.0.hi as nat, v.0.lo as nat, 8, 32))
                &&& at(b@, pos + 44, ":{".spec_bytes())
                &&& list_at::<(U256, U256)>(b@, pos + 46, v.1)
            } by {
                lemma_slots_text(v.0, v.1);
                lemma_pair_text(v.0.hi as nat, v.0.lo as nat, 8, 32);
                let l = list_text::<(U256, U256)>(v.1);
                lemma_at_concat(b@, pos as int, pair_text(v.0.hi as nat, v.0.lo as nat, 8, 32), ":{".spec_bytes() + (l + "}".spec_bytes()));
                lemma_at_concat(b@, pos + 44, ":{".spec_bytes(), l + "}".spec_bytes());
                lemma_at_concat(b@, pos + 46, l, "}".spec_bytes());
                assert(b@.subrange(pos + 46 + l.len(), pos + 46 + l.len() + 1)[0] == b@[pos + 46 + l.len()]);
            }
        }
        let (hi, lo, p1) = match parse_pair(b, pos, 8, 32) {
            Some(x) => x,
            None => return None,
        };
        let p2 = match expect_str(b, p1, ":{") {
            Some(q) => q,
            None => return None,
        };
        let (slots, p3) = match parse_list::<(U256, U256)>(b, p2) {
            Some(x) => x,
            None => return None,
        };
        let p4 = match expect_str(b, p3, "}") {
            Some(q) => q,
            None => {
                proof {
                    assert(b@.subrange(p3 as int, p3 + 1) =~= "}".spec_bytes());
                }
                return None;
            },
        };
        let a = Address { hi: hi as u32, lo };
        let ghost sv = rviews(slots@);
        proof {
            assert(slots@.map_values(|x: (U256, U256)| x.rview()) =~= slots@);
            assert(sv == slots@);
            lemma_slots_text(a, slots@);
            lemma_pair_text(a.hi as nat, a.lo as nat, 8, 32);
            let l = list_text::<(U256, U256)>(slots@);
            lemma_at_concat(b@, p2 as int, l, "}".spec_bytes());
            lemma_at_concat(b@, p1 as int, ":{".spec_bytes(), l + "}".spec_bytes());
            lemma_at_concat(b@, pos as int, pair_text(a.hi as nat, a.lo as nat, 8, 32), ":{".spec_bytes() + (l + "}".spec_bytes()));
            assert forall|v: (Address, Seq<(U256, U256)>)| #[trigger] at(b@, pos as int, slots_text(v.0, v.1)) implies v == (a, slots@) by {
                assert(at(b@, pos as int, pair_text(v.0.hi as nat, v.0.lo as nat, 8, 32)));
                assert(v.0.hi as nat == hi as nat && v.0.lo as nat == lo as nat);
                assert(list_at::<(U256, U256)>(b@, pos + 46, v.1));
            }
        }
        Some(((a, slots), p4))
    }
}

/// Reads a whole cache file: the accounts, the storage and the block hashes
/// it lists, in the order listed; `None` where `b` is not such a file.
pub fn parse_cache(b: &Vec<u8>) -> (r: Option<(Vec<(Address, AccountInfo)>, Vec<(Address, Vec<(U256, U256)>)>, Vec<(U256, B256)>)>)
    ensures
        match r {
            Some((a, s, h)) => {
                &&& b@ == cache_text(accounts_view(a@), storage_seq(s@), h@)
                &&& forall|a2: Seq<(Address, AccountView)>, s2: Seq<(Address, Seq<(U256, U256)>)>, h2: Seq<(U256, B256)>|
                    b@ == #[trigger] cache_text(a2, s2, h2) ==> a2 == accounts_view(a@) && s2 == storage_seq(s@) && h2 == h@
            },
            None => forall|a2: Seq<(Address, AccountView)>, s2: Seq<(Address, Seq<(U256, U256)>)>, h2: Seq<(U256, B256)>|
                b@ != #[trigger] cache_text(a2, s2, h2),
        },
{
    proof {
        lemma_literal_bytes();
        assert forall|a2: Seq<(Address, AccountView)>, s2: Seq<(Address, Seq<(U256, U256)>)>, h2: Seq<(U256, B256)>|
            b@ == #[trigger] cache_text(a2, s2, h2) implies cache_parts(b@, a2, s2, h2) by {
            lemma_cache_text(b@, a2, s2, h2);
        }
    }
    let p0 = match expect_str(b, 0, "{\"accounts\":{") {
        Some(q) => q,
        None => return None,
    };
    let (accounts, p1) = match parse_list::<(Address, AccountInfo)>(b, p0) {
        Some(x) => x,
        None => return None,
    };
    let p2 = match expect_str(b, p1, "},\"storage\":{") {
        Some(q) => q,
        None => return None,
    };
    let (storage, p3) = match parse_list::<(Address, Vec<(U256, U256)>)>(b, p2) {
        Some(x) => x,
        None => return None,
    };
    let p4 = match expect_str(b, p3, "},\"block_hashes\":{") {
        Some(q) => q,
        None => return None,
    };
    let (hashes, p5) = match parse_list::<(U256, B256)>(b, p4) {
        Some(x) => x,
        None => return None,
    };
    let p6 = match expect_str(b, p5, "}}") {
        Some(q) => q,
        None => return None,
    };
    if p6 != b.len() {
        return None;
    }
    proof {
        let av = rviews(accounts@);
        let sv = rviews(storage@);
        let hv = rviews(hashes@);
        assert(av =~= accounts_view(accounts@));
        assert(sv =~= storage_seq(storage@));
        assert(hv =~= hashes@);
        lemma_cache_text(b@, av, sv, hv);
        assert(b@.subrange(0, b@.len() as int) =~= b@);
    }
    Some((accounts, storage, hashes))
}

/// `b` holds, piece by piece, the cache file of `a`, `s` and `h`.
pub open spec fn cache_parts(
    b: Seq<u8>,
    a: Seq<(Address, AccountView)>,
    s: Seq<(Address, Seq<(U256, U256)>)>,
    h: Seq<(U256, B256)>,
) -> bool {
    let l0 = "{\"accounts\":{".spec_bytes();
    let la = list_text::<(Address, AccountInfo)>(a);
    let l1 = "},\"storage\":{".spec_bytes();
    let ls = list_text::<(Address, Vec<(U256, U256)>)>(s);
    let l2 = "},\"block_hashes\":{".spec_bytes();
    let lh = list_text::<(U256, B256)>(h);
    let l3 = "}}".spec_bytes();
    &&& at(b, 0, l0)
    &&& list_at::<(Address, AccountInfo)>(b, l0.len() as int, a)
    &&& at(b, (l0.len() + la.len()) as int, l1)
    &&& list_at::<(Address, Vec<(U256, U256)>)>(b, (l0.len() + la.len() + l1.len()) as int, s)
    &&& at(b, (l0.len() + la.len() + l1.len() + ls.len()) as int, l2)
    &&& list_at::<(U256, B256)>(b, (l0.len() + la.len() + l1.len() + ls.len() + l2.len()) as int, h)
    &&& at(b, (l0.len() + la.len() + l1.len() + ls.len() + l2.len() + lh.len()) as int, l3)
    &&& b.len() == l0.len() + la.len() + l1.len() + ls.len() + l2.len() + lh.len() + l3.len()
}

#[verifier::rlimit(80)]
#[verifier::spinoff_prover]
proof fn lemma_cache_text(
    b: Seq<u8>,
    a: Seq<(Address, AccountView)>,
    s: Seq<(Address, Seq<(U256, U256)>)>,
    h: Seq<(U256, B256)>,
)
    ensures
        (b == cache_text(a, s, h)) == cache_parts(b, a, s, h),
{
    lemma_literal_bytes();
    let l0 = "{\"accounts\":{".spec_bytes();
    let la = list_text::<(Address, AccountInfo)>(a);
    let l1 = "},\"storage\":{".spec_bytes();
    let ls = list_text::<(Address, Vec<(U256, U256)>)>(s);
    let l2 = "},\"block_hashes\":{".spec_bytes();
    let lh = list_text::<(U256, B256)>(h);
    let l3 = "}}".spec_bytes();
    assert(a.map_values(|e: (Address, AccountView)| account_text(e.0, e.1)) =~= a.map_values(
        |v: (Address, AccountView)| <(Address, AccountInfo) as Record>::text(v),
    ));
    assert(s.map_values(|e: (Address, Seq<(U256, U256)>)| slots_text(e.0, e.1)) =~= s.map_values(
        |v: (Address, Seq<(U256, U256)>)| <(Address, Vec<(U256, U256)>) as Record>::text(v),
    ));
    assert(h.map_values(|e: (U256, B256)| block_hash_text(e.0, e.1)) =~= h.map_values(
        |v: (U256, B256)| <(U256, B256) as Record>::text(v),
    ));
    let r5 = lh + l3;
    let r4 = l2 + r5;
    let r3 = ls + r4;
    let r2 = l1 + r3;
    let r1 = la + r2;
    let r0 = l0 + r1;
    assert(cache_text(a, s, h) == l0 + la + l1 + ls + l2 + lh + l3);
    lemma_concat_associative(l0 + la + l1 + ls + l2, lh, l3);
    lemma_concat_associative(l0 + la + l1 + ls, l2, r5);
    lemma_concat_associative(l0 + la + l1, ls, r4);
    lemma_concat_associative(l0 + la, l1, r3);
    lemma_concat_associative(l0, la, r2);
    assert(cache_text(a, s, h) == r0);
    let o1 = l0.len() as int;
    let o2 = o1 + la.len();
    let o3 = o2 + l1.len();
    let o4 = o3 + ls.len();
    let o5 = o4 + l2.len();
    let o6 = o5 + lh.len();
    lemma_at_concat(b, 0, l0, r1);
    lemma_at_concat(b, o1, la, r2);
    lemma_at_concat(b, o2, l1, r3);
    lemma_at_concat(b, o3, ls, r4);
    lemma_at_concat(b, o4, l2, r5);
    lemma_at_concat(b, o5, lh, l3);
    if at(b, o2, l1) {
        assert(b[o2] == b.subrange(o2, o2 + l1.len())[0]);
    }
    if at(b, o4, l2) {
        assert(b[o4] == b.subrange(o4, o4 + l2.len())[0]);
    }
    if at(b, o6, l3) {
        assert(b[o6] == b.subrange(o6, o6 + l3.len())[0]);
    }
    if b == r0 {
        assert(b.subrange(0, r0.len() as int) =~= r0);
    }
    if at(b, 0, r0) && b.len() == r0.len() {
        assert(b.subrange(0, r0.len() as int) =~= b);
    }
}


/// The slots of each account of a storage listing, as maps.
pub open spec fn slot_maps(s: Seq<(Address, Seq<(U256, U256)>)>) -> Seq<(Address, Map<U256, U256>)> {
    s.map_values(|e: (Address, Seq<(U256, U256)>)| (e.0, apply_pairs(Map::<U256, U256>::empty(), e.1)))
}

/// The state of a handler just loaded from the cache file of `a`, `s` and
/// `h`: the file's entries, written in order, and nothing in flight.
pub open spec fn loaded(
    v: HandlerView,
    a: Seq<(Address, AccountView)>,
    s: Seq<(Address, Seq<(U256, U256)>)>,
    h: Seq<(U256, B256)>,
    pin: Option<BlockId>,
    local: bool,
) -> bool {
    &&& v.accounts == apply_pairs(Map::<Address, AccountView>::empty(), a)
    &&& v.storage == apply_pairs(Map::<Address, Map<U256, U256>>::empty(), slot_maps(s))
    &&& v.block_hashes == apply_pairs(Map::<U256, B256>::empty(), h)
    &&& v.account_waiters == Map::<Address, Seq<u64>>::empty()
    &&& v.storage_waiters == Map::<SlotKey, Seq<u64>>::empty()
    &&& v.block_waiters == Map::<u64, Seq<u64>>::empty()
    &&& v.pin == pin
    &&& v.local == local
}

/// A table holding the pairs written in order.
fn table_of(pairs: &Vec<(U256, U256)>) -> (t: Table<U256, U256>)
    ensures
        t.wf(),
        t@ == apply_pairs(Map::<U256, U256>::empty(), pairs@),
{
    let mut t: Table<U256, U256> = Table::new();
    let mut i: usize = 0;
    assert(pairs@.skip(0) =~= pairs@);
    while i < pairs.len()
        invariant
            t.wf(),
            i <= pairs@.len(),
            apply_pairs(t@, pairs@.skip(i as int)) == apply_pairs(Map::<U256, U256>::empty(), pairs@),
        decreases pairs@.len() - i,
    {
        let ghost m = t@;
        let (k, v) = pairs[i];
        t.insert(k, v);
        assert(pairs@.skip(i as int).drop_first() =~= pairs@.skip(i + 1));
        i = i + 1;
    }
    assert(pairs@.skip(i as int) =~= Seq::<(U256, U256)>::empty());
    t
}

/// A handler pinned to `pin` whose cache holds what the cache file `b`
/// holds; `None` where `b` is not a cache file.
pub fn decode_cache(pin: Option<BlockId>, local: bool, b: &Vec<u8>) -> (r: Option<BackendHandler>)
    ensures
        match r {
            Some(h) => h.wf(),
            None => forall|a2: Seq<(Address, AccountView)>, s2: Seq<(Address, Seq<(U256, U256)>)>, h2: Seq<(U256, B256)>|
                b@ != #[trigger] cache_text(a2, s2, h2),
        },
        forall|a2: Seq<(Address, AccountView)>, s2: Seq<(Address, Seq<(U256, U256)>)>, h2: Seq<(U256, B256)>|
            b@ == #[trigger] cache_text(a2, s2, h2) ==> match r {
                Some(h) => loaded(h@, a2, s2, h2, pin, local),
                None => false,
            },
{
    let (accounts, storage, hashes) = match parse_cache(b) {
        Some(x) => x,
        None => return None,
    };
    let ghost av = accounts_view(accounts@);
    let ghost sv = storage_seq(storage@);
    let ghost hv = hashes@;
    let mut h = BackendHandler::new(pin, local);
    h.update_accounts(accounts);
    let mut tables: Vec<(Address, Table<U256, U256>)> = Vec::new();
    let mut i: usize = 0;
    while i < storage.len()
        invariant
            i <= storage@.len(),
            sv == storage_seq(storage@),
            tables@.len() == i,
            forall|j: int| 0 <= j < i ==> (#[trigger] tables@[j]).1.wf() && tables@[j].0 == storage@[j].0 && tables@[j].1@
                == apply_pairs(Map::<U256, U256>::empty(), storage@[j].1@),
        decreases storage@.len() - i,
    {
        let t = table_of(&storage[i].1);
        tables.push((storage[i].0, t));
        i = i + 1;
    }
    assert(storage_view(tables@) =~= slot_maps(sv));
    h.update_storage(tables);
    h.update_block_hashes(hashes);
    Some(h)
}

} // verus!
