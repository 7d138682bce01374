//! Where jumps land. A jump's offset counts the bytes to skip after the
//! jump; the compiled code is right when every jump lands on the boundary
//! between two instructions (or at the end), never inside one.

use vstd::prelude::*;
use crate::ir::{Instruction, code_size, instruction_size, is_jump, jump_offset, lemma_code_size_append, with_offset};

verus! {

/// The bytes taken by `code[i..j]`.
pub open spec fn dist(code: Seq<Instruction>, i: int, j: int) -> nat {
    code_size(code.subrange(i, j))
}

/// The jump at `k` lands just before instruction `t` (at the end where
/// `t` is the length): its offset, read as 16 bits, is the number of bytes
/// of the instructions in between.
pub open spec fn lands(code: Seq<Instruction>, k: int, t: int) -> bool {
    &&& 0 <= k < code.len()
    &&& k + 1 <= t <= code.len()
    &&& (jump_offset(code[k]) as u16) as int == dist(code, k + 1, t) % 65536
}

/// Every jump of the code lands on an instruction boundary no further than
/// before instruction `m`.
pub open spec fn jumps_land_by(code: Seq<Instruction>, m: int) -> bool {
    forall|k: int| 0 <= k < code.len() && is_jump(#[trigger] code[k]) ==> exists|t: int| t <= m && lands(code, k, t)
}

/// Every jump of the code lands on an instruction boundary within it.
pub open spec fn jumps_ok(code: Seq<Instruction>) -> bool {
    jumps_land_by(code, code.len() as int)
}

pub proof fn lemma_dist_split(code: Seq<Instruction>, i: int, j: int, k: int)
    requires
        0 <= i <= j <= k <= code.len(),
    ensures
        dist(code, i, k) == dist(code, i, j) + dist(code, j, k),
{
    lemma_code_size_append(code.subrange(i, j), code.subrange(j, k));
    assert(code.subrange(i, j) + code.subrange(j, k) =~= code.subrange(i, k));
}

/// A landing in `a` is one in `a + b`.
pub proof fn lemma_lands_left(a: Seq<Instruction>, b: Seq<Instruction>, k: int, t: int)
    requires
        lands(a, k, t),
    ensures
        lands(a + b, k, t),
{
    assert((a + b).subrange(k + 1, t) =~= a.subrange(k + 1, t));
    assert((a + b)[k] == a[k]);
}

/// A landing in `b` is one in `a + b`, shifted.
pub proof fn lemma_lands_right(a: Seq<Instruction>, b: Seq<Instruction>, k: int, t: int)
    requires
        lands(b, k, t),
    ensures
        lands(a + b, k + a.len(), t + a.len()),
{
    assert((a + b).subrange(k + a.len() + 1, t + a.len()) =~= b.subrange(k + 1, t));
    assert((a + b)[k + a.len()] == b[k]);
}

/// Landings by `m` in `a` and by `n` in `b` are landings in `a + b`.
pub proof fn lemma_land_by_append(a: Seq<Instruction>, b: Seq<Instruction>, m: int, n: int)
    requires
        jumps_land_by(a, m),
        jumps_land_by(b, n),
        m <= a.len() + n,
    ensures
        jumps_land_by(a + b, a.len() + n),
{
    assert forall|k: int| 0 <= k < (a + b).len() && is_jump(#[trigger] (a + b)[k]) implies exists|t: int| t <= a.len() + n
        && lands(a + b, k, t) by {
        if k < a.len() {
            assert((a + b)[k] == a[k]);
            let t = choose|t: int| t <= m && lands(a, k, t);
            lemma_lands_left(a, b, k, t);
        } else {
            let k2 = k - a.len();
            assert((a + b)[k] == b[k2]);
            let t = choose|t: int| t <= n && lands(b, k2, t);
            lemma_lands_right(a, b, k2, t);
        }
    }
}

pub proof fn lemma_jumps_ok_append(a: Seq<Instruction>, b: Seq<Instruction>)
    requires
        jumps_ok(a),
        jumps_ok(b),
    ensures
        jumps_ok(a + b),
{
    lemma_land_by_append(a, b, a.len() as int, b.len() as int);
}

pub proof fn lemma_jumps_ok_empty()
    ensures
        jumps_ok(Seq::<Instruction>::empty()),
{
}

/// An instruction that does not jump keeps the jumps landing.
pub proof fn lemma_jumps_ok_push(a: Seq<Instruction>, i: Instruction)
    requires
        jumps_ok(a),
        !is_jump(i),
    ensures
        jumps_ok(a.push(i)),
{
    assert(jumps_ok(seq![i]));
    lemma_jumps_ok_append(a, seq![i]);
    assert(a + seq![i] =~= a.push(i));
}

/// A jump with offset 0 lands just after itself.
pub proof fn lemma_lands_next(code: Seq<Instruction>, k: int)
    requires
        0 <= k < code.len(),
        jump_offset(code[k]) == 0,
    ensures
        lands(code, k, k + 1),
{
    assert(code.subrange(k + 1, k + 1) =~= Seq::<Instruction>::empty());
}

/// Dropping the last instruction keeps a landing that is not past the new end.
pub proof fn lemma_lands_drop_last(code: Seq<Instruction>, k: int, t: int)
    requires
        lands(code, k, t),
        k < code.len() - 1,
        t <= code.len() - 1,
    ensures
        lands(code.drop_last(), k, t),
{
    assert(code.drop_last().subrange(k + 1, t) =~= code.subrange(k + 1, t));
    assert(code.drop_last()[k] == code[k]);
}

/// Replacing an instruction by one of the same size keeps the other jumps' landings.
pub proof fn lemma_lands_update(code: Seq<Instruction>, j: int, i: Instruction, k: int, t: int)
    requires
        lands(code, k, t),
        0 <= j < code.len(),
        j != k,
        instruction_size(i) == instruction_size(code[j]),
    ensures
        lands(code.update(j, i), k, t),
{
    let c2 = code.update(j, i);
    assert(c2[k] == code[k]);
    if k + 1 <= j < t {
        let s1 = code.subrange(k + 1, t);
        let s2 = c2.subrange(k + 1, t);
        assert(s2 =~= s1.update(j - (k + 1), i));
        crate::ir::lemma_code_size_update(s1, j - (k + 1), i);
    } else {
        assert(c2.subrange(k + 1, t) =~= code.subrange(k + 1, t));
    }
}

/// Adding to a 16-bit offset adds to its bits, modulo 2^16.
pub proof fn lemma_offset_add(o: i16, a: i16)
    ensures
        (o.wrapping_add(a) as u16) == (o as u16).wrapping_add(a as u16),
{
    assert((o.wrapping_add(a) as u16) == (o as u16).wrapping_add(a as u16)) by (bit_vector);
}

/// Adding to offset bits that count `d` bytes counts `d` plus the addition.
pub proof fn lemma_offset_bits_add(x: u16, y: u16, d: int, e: int)
    requires
        x as int == d % 65536,
        y as int == e % 65536,
        d >= 0,
        e >= 0,
    ensures
        x.wrapping_add(y) as int == (d + e) % 65536,
{
    vstd::arithmetic::div_mod::lemma_add_mod_noop(d, e, 65536);
}

/// Taking 3 from offset bits that count `d >= 3` bytes counts `d - 3`.
pub proof fn lemma_offset_minus_three(o: i16, d: int)
    requires
        (o as u16) as int == d % 65536,
        d >= 3,
    ensures
        (o.wrapping_add(-3i16) as u16) as int == (d - 3) % 65536,
{
    assert((o.wrapping_add(-3i16) as u16) == (o as u16).wrapping_sub(3u16)) by (bit_vector);
}

/// The code of a `sample` after some arms: the last arm's skip at `f`
/// lands at the end, the final `JMP` (not aimed yet) just after itself, and
/// every other jump before that `JMP`.
pub open spec fn arms_landed(c: Seq<Instruction>, f: int) -> bool {
    &&& 0 <= f < c.len() - 1
    &&& is_jump(c[f])
    &&& c[c.len() - 1] is JMP
    &&& lands(c, f, c.len() as int)
    &&& lands(c, c.len() - 1, c.len() as int)
    &&& forall|k: int| 0 <= k < c.len() && is_jump(#[trigger] c[k]) && k != f && k != c.len() - 1
        ==> exists|t: int| t <= c.len() - 2 && lands(c, k, t)
}

pub proof fn lemma_size_one(i: Instruction)
    ensures
        code_size(seq![i]) == instruction_size(i),
{
    let s = seq![i];
    assert(s.drop_last() =~= Seq::<Instruction>::empty());
    assert(code_size(s.drop_last()) == 0);
    assert(s.last() == i);
}

/// A jump over exactly the one instruction after it keeps the jumps landing.
pub proof fn lemma_skip_one(prev: Seq<Instruction>, j: Instruction, i: Instruction)
    requires
        jumps_ok(prev),
        is_jump(j),
        (jump_offset(j) as u16) as int == instruction_size(i),
        !is_jump(i),
    ensures
        jumps_ok(prev.push(j).push(i)),
{
    let s = seq![j, i];
    assert(s.subrange(1, 2) =~= seq![i]);
    lemma_size_one(i);
    assert(lands(s, 0, 2));
    assert(jumps_ok(s));
    lemma_jumps_ok_append(prev, s);
    assert(prev + s =~= prev.push(j).push(i));
}

/// Code whose arms have landed has all its jumps landing.
pub proof fn lemma_arms_landed_ok(c: Seq<Instruction>, f: int)
    requires
        arms_landed(c, f),
    ensures
        jumps_ok(c),
{
    assert forall|k: int| 0 <= k < c.len() && is_jump(#[trigger] c[k]) implies exists|t: int| t <= c.len() && lands(c, k, t) by {
        if k == f {
            assert(lands(c, f, c.len() as int));
        } else if k == c.len() - 1 {
            assert(lands(c, k, c.len() as int));
        } else {
            let t = choose|t: int| t <= c.len() - 2 && lands(c, k, t);
        }
    }
}

/// Dropping the final `JMP` of the last arm and taking its 3 bytes off the
/// last skip leaves every jump landing.
pub proof fn lemma_close_arms(c: Seq<Instruction>, f: int, newf: Instruction)
    requires
        arms_landed(c, f),
        newf == with_offset(c[f], jump_offset(c[f]).wrapping_add(-3i16)),
    ensures
        jumps_ok(c.drop_last().update(f, newf)),
{
    let n = c.len() as int;
    let d = c.drop_last();
    let e = d.update(f, newf);
    lemma_dist_split(c, f + 1, n - 1, n);
    assert(c.subrange(n - 1, n) =~= seq![c[n - 1]]);
    lemma_size_one(c[n - 1]);
    assert(d.subrange(f + 1, n - 1) =~= c.subrange(f + 1, n - 1));
    assert(e.subrange(f + 1, n - 1) =~= c.subrange(f + 1, n - 1));
    lemma_offset_minus_three(jump_offset(c[f]), dist(c, f + 1, n) as int);
    assert(instruction_size(newf) == instruction_size(d[f]));
    assert(lands(e, f, n - 1));
    assert forall|k: int| 0 <= k < e.len() && is_jump(#[trigger] e[k]) implies exists|t: int| t <= e.len() && lands(e, k, t) by {
        if k != f {
            assert(e[k] == c[k]);
            let t = choose|t: int| t <= n - 2 && lands(c, k, t);
            lemma_lands_drop_last(c, k, t);
            lemma_lands_update(d, f, newf, k, t);
        }
    }
}

/// Aiming a `JMP` at the end keeps every jump landing.
pub proof fn lemma_retarget(c: Seq<Instruction>, idx: int, o: i16)
    requires
        jumps_ok(c),
        0 <= idx < c.len(),
        c[idx] is JMP,
        (o as u16) as int == dist(c, idx + 1, c.len() as int) % 65536,
    ensures
        jumps_ok(c.update(idx, Instruction::JMP { offset: o })),
{
    let i = Instruction::JMP { offset: o };
    let e = c.update(idx, i);
    assert(e.subrange(idx + 1, c.len() as int) =~= c.subrange(idx + 1, c.len() as int));
    assert(lands(e, idx, c.len() as int));
    assert forall|k: int| 0 <= k < e.len() && is_jump(#[trigger] e[k]) implies exists|t: int| t <= e.len() && lands(e, k, t) by {
        if k != idx {
            assert(e[k] == c[k]);
            let t = choose|t: int| t <= c.len() && lands(c, k, t);
            lemma_lands_update(c, idx, i, k, t);
        }
    }
}

/// Appending one arm of a `sample`: after `prev` comes the jump `skip`
/// over the arm, then the arm's code, a `MOV` and a `JMP` not aimed yet.
/// The skip lands at the end, the `JMP` just after itself, and every other
/// jump before the `MOV`.
pub proof fn lemma_arm_step(prev: Seq<Instruction>, skip: Instruction, arm: Seq<Instruction>, mov: Instruction, jmp: Instruction)
    requires
        jumps_land_by(prev, prev.len() as int),
        jumps_ok(arm),
        is_jump(skip),
        (jump_offset(skip) as u16) as int == code_size(arm.push(mov).push(jmp)) % 65536,
        !is_jump(mov),
        jmp == (Instruction::JMP { offset: 0 }),
    ensures
        arms_landed(prev.push(skip) + arm.push(mov).push(jmp), prev.len() as int),
{
    let code = arm.push(mov).push(jmp);
    let c = prev.push(skip) + code;
    let f = prev.len() as int;
    let head = prev.push(skip);
    assert(c.subrange(f + 1, c.len() as int) =~= code);
    assert(c[f] == skip);
    assert(c[c.len() - 1] == jmp);
    lemma_lands_next(c, c.len() - 1);
    assert forall|k: int| 0 <= k < c.len() && is_jump(#[trigger] c[k]) && k != f && k != c.len() - 1
        implies exists|t: int| t <= c.len() - 2 && lands(c, k, t) by {
        if k < f {
            assert(c[k] == prev[k]);
            let t = choose|t: int| t <= prev.len() && lands(prev, k, t);
            assert(lands(head, k, t)) by {
                assert(head.subrange(k + 1, t) =~= prev.subrange(k + 1, t));
                assert(head[k] == prev[k]);
            }
            lemma_lands_left(head, code, k, t);
        } else {
            let k2 = k - f - 1;
            assert(c[k] == code[k2]);
            if k2 < arm.len() {
                assert(code[k2] == arm[k2]);
                let t2 = choose|t: int| t <= arm.len() && lands(arm, k2, t);
                lemma_lands_left(arm, seq![mov, jmp], k2, t2);
                assert(arm + seq![mov, jmp] =~= code);
                lemma_lands_right(head, code, k2, t2);
            } else {
                assert(k2 == arm.len());
                assert(code[k2] == mov);
            }
        }
    }
}


/// The indices grow strictly: none is listed twice.
pub open spec fn increasing(s: Seq<usize>) -> bool {
    forall|i: int, j: int| 0 <= i < j < s.len() ==> s[i] < s[j]
}

/// The indices `s`, each moved on by `base`.
pub open spec fn offset_indices(s: Seq<usize>, base: int) -> Seq<usize> {
    s.map_values(|m: usize| (m + base) as usize)
}

/// `k` is one of the indices `s`.
pub open spec fn listed(s: Seq<usize>, k: int) -> bool {
    exists|q: int| 0 <= q < s.len() && s[q] as int == k
}

/// The jump at `k` lands `extra` bytes past the end of the code.
pub open spec fn lands_past(code: Seq<Instruction>, k: int, extra: int) -> bool {
    &&& 0 <= k < code.len()
    &&& (jump_offset(code[k]) as u16) as int == (dist(code, k + 1, code.len() as int) + extra) % 65536
}

/// The conditional jumps at `misses` land `extra` bytes past the end of the
/// code; every other jump lands within it.
pub open spec fn misses_land(code: Seq<Instruction>, misses: Seq<usize>, extra: int) -> bool {
    &&& increasing(misses)
    &&& forall|q: int| 0 <= q < misses.len() ==> {
        &&& #[trigger] misses[q] < code.len()
        &&& is_jump(code[misses[q] as int])
        &&& !(code[misses[q] as int] is JMP)
        &&& lands_past(code, misses[q] as int, extra)
    }
    &&& forall|k: int| 0 <= k < code.len() && is_jump(#[trigger] code[k]) && !listed(misses, k)
        ==> exists|t: int| t <= code.len() && lands(code, k, t)
}

/// Code that ends in a `JMP` not aimed yet, before which the jumps at
/// `misses` land just past that `JMP` and every other jump lands.
pub open spec fn ends_open(code: Seq<Instruction>, misses: Seq<usize>) -> bool {
    &&& code.len() > 0
    &&& code.last() == (Instruction::JMP { offset: 0 })
    &&& misses_land(code.drop_last(), misses, 3)
}

/// `new` is `old` with the offset of each jump at `idx` moved by `change`.
pub open spec fn shifted(old: Seq<Instruction>, new: Seq<Instruction>, idx: Seq<usize>, change: i16) -> bool {
    &&& new.len() == old.len()
    &&& forall|k: int| 0 <= k < old.len() ==> #[trigger] new[k] == if listed(idx, k) {
        with_offset(old[k], jump_offset(old[k]).wrapping_add(change))
    } else {
        old[k]
    }
}

/// Each instruction of `a` takes as many bytes as the one of `b` at its place.
pub open spec fn same_sizes(a: Seq<Instruction>, b: Seq<Instruction>) -> bool {
    &&& a.len() == b.len()
    &&& forall|k: int| 0 <= k < a.len() ==> instruction_size(#[trigger] a[k]) == instruction_size(b[k])
}

pub proof fn lemma_same_sizes_code_size(a: Seq<Instruction>, b: Seq<Instruction>)
    requires
        same_sizes(a, b),
    ensures
        code_size(a) == code_size(b),
    decreases a.len(),
{
    if a.len() > 0 {
        assert(instruction_size(a[a.len() - 1]) == instruction_size(b[b.len() - 1]));
        lemma_same_sizes_code_size(a.drop_last(), b.drop_last());
    }
}

pub proof fn lemma_same_sizes_dist(a: Seq<Instruction>, b: Seq<Instruction>, i: int, j: int)
    requires
        same_sizes(a, b),
        0 <= i <= j <= a.len(),
    ensures
        dist(a, i, j) == dist(b, i, j),
{
    let x = a.subrange(i, j);
    let y = b.subrange(i, j);
    assert(same_sizes(x, y)) by {
        assert forall|k: int| 0 <= k < x.len() implies instruction_size(#[trigger] x[k]) == instruction_size(y[k]) by {
            assert(x[k] == a[k + i]);
            assert(y[k] == b[k + i]);
        }
    }
    lemma_same_sizes_code_size(x, y);
}

/// A landing is kept by code of the same sizes with the same jump at `k`.
pub proof fn lemma_lands_same_sizes(a: Seq<Instruction>, b: Seq<Instruction>, k: int, t: int)
    requires
        same_sizes(a, b),
        lands(a, k, t),
        b[k] == a[k],
    ensures
        lands(b, k, t),
{
    lemma_same_sizes_dist(a, b, k + 1, t);
}

/// Moving the offsets of the jumps at `misses` by `change` moves where they
/// land by the same number of bytes.
pub proof fn lemma_shift_misses(a: Seq<Instruction>, b: Seq<Instruction>, misses: Seq<usize>, change: i16, extra: int)
    requires
        misses_land(a, misses, extra),
        shifted(a, b, misses, change),
        extra >= 0,
    ensures
        misses_land(b, misses, extra + (change as u16)),
        same_sizes(a, b),
{
    assert forall|k: int| 0 <= k < a.len() implies instruction_size(#[trigger] b[k]) == instruction_size(a[k]) by {
        if listed(misses, k) {
            let q = choose|q: int| 0 <= q < misses.len() && misses[q] as int == k;
            assert(is_jump(a[misses[q] as int]));
        }
    }
    assert(same_sizes(a, b));
    assert forall|q: int| 0 <= q < misses.len() implies {
        &&& #[trigger] misses[q] < b.len()
        &&& is_jump(b[misses[q] as int])
        &&& !(b[misses[q] as int] is JMP)
        &&& lands_past(b, misses[q] as int, extra + (change as u16))
    } by {
        let m = misses[q] as int;
        assert(listed(misses, m));
        assert(is_jump(a[m]));
        assert(lands_past(a, m, extra));
        let o = jump_offset(a[m]);
        assert(jump_offset(b[m]) == o.wrapping_add(change));
        lemma_offset_add(o, change);
        let d = dist(a, m + 1, a.len() as int);
        lemma_same_sizes_dist(a, b, m + 1, a.len() as int);
        lemma_offset_bits_add(o as u16, change as u16, d + extra, (change as u16) as int);
    }
    assert forall|k: int| 0 <= k < b.len() && is_jump(#[trigger] b[k]) && !listed(misses, k)
        implies exists|t: int| t <= b.len() && lands(b, k, t) by {
        assert(b[k] == a[k]);
        let t = choose|t: int| t <= a.len() && lands(a, k, t);
        lemma_lands_same_sizes(a, b, k, t);
    }
}

/// Jumps that land `extra` past the end, with `extra` a multiple of 2^16,
/// land at the end: every jump lands.
pub proof fn lemma_misses_at_end(code: Seq<Instruction>, misses: Seq<usize>, extra: int)
    requires
        misses_land(code, misses, extra),
        extra % 65536 == 0,
        extra >= 0,
    ensures
        jumps_ok(code),
{
    assert forall|k: int| 0 <= k < code.len() && is_jump(#[trigger] code[k]) implies exists|t: int| t <= code.len() && lands(code, k, t) by {
        if listed(misses, k) {
            let q = choose|q: int| 0 <= q < misses.len() && misses[q] as int == k;
            assert(lands_past(code, misses[q] as int, extra));
            let d = dist(code, k + 1, code.len() as int);
            vstd::arithmetic::div_mod::lemma_add_mod_noop(d as int, extra, 65536);
            assert(lands(code, k, code.len() as int));
        }
    }
}

/// Code whose jumps all land has no misses.
pub proof fn lemma_jumps_ok_misses(code: Seq<Instruction>, extra: int)
    requires
        jumps_ok(code),
    ensures
        misses_land(code, Seq::empty(), extra),
{
}

/// Code that ends open has all its jumps landing.
pub proof fn lemma_ends_open_ok(code: Seq<Instruction>, misses: Seq<usize>)
    requires
        ends_open(code, misses),
    ensures
        jumps_ok(code),
{
    let d = code.drop_last();
    let n = code.len() as int;
    assert(d + seq![code.last()] =~= code);
    lemma_size_one(code.last());
    assert forall|k: int| 0 <= k < code.len() && is_jump(#[trigger] code[k]) implies exists|t: int| t <= code.len() && lands(code, k, t) by {
        if k == n - 1 {
            lemma_lands_next(code, k);
        } else {
            assert(code[k] == d[k]);
            if listed(misses, k) {
                let q = choose|q: int| 0 <= q < misses.len() && misses[q] as int == k;
                assert(lands_past(d, k, 3));
                lemma_dist_split(code, k + 1, n - 1, n);
                assert(code.subrange(n - 1, n) =~= seq![code.last()]);
                assert(code.subrange(k + 1, n - 1) =~= d.subrange(k + 1, n - 1));
                assert(lands(code, k, n));
            } else {
                let t = choose|t: int| t <= d.len() && lands(d, k, t);
                lemma_lands_left(d, seq![code.last()], k, t);
            }
        }
    }
}

/// Code followed by more code: the misses of the second, moved by the
/// length of the first, land as they did; those of the first land as far
/// past the new end as before less the second's size.
pub proof fn lemma_misses_concat(a: Seq<Instruction>, ma: Seq<usize>, b: Seq<Instruction>, mb: Seq<usize>, extra: int)
    requires
        misses_land(a, ma, extra + code_size(b)),
        misses_land(b, mb, extra),
        a.len() + b.len() <= usize::MAX,
        extra >= 0,
    ensures
        misses_land(a + b, ma + offset_indices(mb, a.len() as int), extra),
{
    let c = a + b;
    let mc = ma + offset_indices(mb, a.len() as int);
    let n = a.len() as int;
    assert forall|i: int, j: int| 0 <= i < j < mc.len() implies mc[i] < mc[j] by {
        if j < ma.len() {
        } else if i >= ma.len() {
            assert(mb[i - ma.len()] < mb[j - ma.len()]);
        } else {
            assert(ma[i] < n);
        }
    }
    assert forall|q: int| 0 <= q < mc.len() implies {
        &&& #[trigger] mc[q] < c.len()
        &&& is_jump(c[mc[q] as int])
        &&& !(c[mc[q] as int] is JMP)
        &&& lands_past(c, mc[q] as int, extra)
    } by {
        if q < ma.len() {
            let m = ma[q] as int;
            assert(mc[q] == ma[q]);
            assert(c[m] == a[m]);
            assert(lands_past(a, m, extra + code_size(b)));
            lemma_code_size_append(a.subrange(m + 1, n), b);
            assert(c.subrange(m + 1, c.len() as int) =~= a.subrange(m + 1, n) + b);
        } else {
            let q2 = q - ma.len();
            let m = mb[q2] as int;
            assert(mc[q] == (m + n) as usize);
            assert(c[m + n] == b[m]);
            assert(lands_past(b, m, extra));
            assert(c.subrange(m + n + 1, c.len() as int) =~= b.subrange(m + 1, b.len() as int));
        }
    }
    assert forall|k: int| 0 <= k < c.len() && is_jump(#[trigger] c[k]) && !listed(mc, k)
        implies exists|t: int| t <= c.len() && lands(c, k, t) by {
        if k < n {
            assert(c[k] == a[k]);
            if listed(ma, k) {
                let q = choose|q: int| 0 <= q < ma.len() && ma[q] as int == k;
                assert(mc[q] == ma[q]);
                assert(false);
            }
            let t = choose|t: int| t <= a.len() && lands(a, k, t);
            lemma_lands_left(a, b, k, t);
        } else {
            let k2 = k - n;
            assert(c[k] == b[k2]);
            if listed(mb, k2) {
                let q = choose|q: int| 0 <= q < mb.len() && mb[q] as int == k2;
                assert(mc[q + ma.len()] as int == k);
                assert(false);
            }
            let t = choose|t: int| t <= b.len() && lands(b, k2, t);
            lemma_lands_right(a, b, k2, t);
        }
    }
}

/// A conditional jump of offset 3 after code whose jumps land: it lands 3
/// bytes past the end.
pub proof fn lemma_miss_jump(code: Seq<Instruction>, j: Instruction)
    requires
        jumps_ok(code),
        is_jump(j),
        !(j is JMP),
        jump_offset(j) == 3,
        code.len() < usize::MAX,
    ensures
        misses_land(code.push(j), seq![code.len() as usize], 3),
{
    let c = code.push(j);
    let n = code.len() as int;
    assert(c.subrange(n + 1, n + 1) =~= Seq::<Instruction>::empty());
    assert(lands_past(c, n, 3));
    let ms = seq![code.len() as usize];
    assert(ms[0] as int == n);
    assert forall|q: int| 0 <= q < ms.len() implies {
        &&& #[trigger] ms[q] < c.len()
        &&& is_jump(c[ms[q] as int])
        &&& !(c[ms[q] as int] is JMP)
        &&& lands_past(c, ms[q] as int, 3)
    } by {
        assert(q == 0);
    }
    assert forall|k: int| 0 <= k < c.len() && is_jump(#[trigger] c[k]) && !listed(ms, k)
        implies exists|t: int| t <= c.len() && lands(c, k, t) by {
        if k == n {
            assert(listed(ms, k));
        } else {
            assert(c[k] == code[k]);
            let t = choose|t: int| t <= code.len() && lands(code, k, t);
            lemma_lands_left(code, seq![j], k, t);
            assert(code + seq![j] =~= c);
        }
    }
}


/// `new` is `old` with each jump at `idx` before `target` aimed at
/// `target`: with `add` its offset grows by the bytes in between; without,
/// each `JMP` among them gets those bytes as its offset.
pub open spec fn aimed(old: Seq<Instruction>, new: Seq<Instruction>, idx: Seq<usize>, target: int, add: bool) -> bool {
    &&& same_sizes(old, new)
    &&& forall|k: int| 0 <= k < old.len() ==> {
        let hit = listed(idx, k) && k < target && is_jump(old[k]) && (add || old[k] is JMP);
        &&& !hit ==> #[trigger] new[k] == old[k]
        &&& hit ==> {
            &&& new[k] == with_offset(old[k], jump_offset(new[k]))
            &&& (jump_offset(new[k]) as u16) as int == ((if add { (jump_offset(old[k]) as u16) as int } else { 0 })
                + dist(old, k + 1, target)) % 65536
        }
    }
}

/// The indices before `q` and the one at `q`.
pub proof fn lemma_listed_take(s: Seq<usize>, q: int, k: int)
    requires
        0 <= q < s.len(),
    ensures
        listed(s.take(q + 1), k) <==> listed(s.take(q), k) || s[q] as int == k,
{
    let t1 = s.take(q + 1);
    let t0 = s.take(q);
    if listed(t1, k) {
        let j = choose|j: int| 0 <= j < t1.len() && #[trigger] t1[j] as int == k;
        if j < q {
            assert(t0[j] == s[j]);
        }
    }
    if listed(t0, k) {
        let j = choose|j: int| 0 <= j < t0.len() && #[trigger] t0[j] as int == k;
        assert(t1[j] == s[j]);
    }
    if s[q] as int == k {
        assert(t1[q] == s[q]);
    }
}

/// An index of increasing indices is not among those before it.
pub proof fn lemma_increasing_fresh(s: Seq<usize>, q: int)
    requires
        increasing(s),
        0 <= q < s.len(),
    ensures
        !listed(s.take(q), s[q] as int),
{
    let t0 = s.take(q);
    if listed(t0, s[q] as int) {
        let j = choose|j: int| 0 <= j < t0.len() && #[trigger] t0[j] as int == s[q] as int;
        assert(t0[j] == s[j]);
        assert(s[j] < s[q]);
    }
}

/// Aiming `JMP`s at the end keeps the misses and every other landing.
pub proof fn lemma_aim_keeps(a: Seq<Instruction>, b: Seq<Instruction>, idx: Seq<usize>, misses: Seq<usize>, extra: int)
    requires
        aimed(a, b, idx, a.len() as int, false),
        misses_land(a, misses, extra),
    ensures
        misses_land(b, misses, extra),
{
    let n = a.len() as int;
    assert forall|q: int| 0 <= q < misses.len() implies {
        &&& #[trigger] misses[q] < b.len()
        &&& is_jump(b[misses[q] as int])
        &&& !(b[misses[q] as int] is JMP)
        &&& lands_past(b, misses[q] as int, extra)
    } by {
        let m = misses[q] as int;
        assert(b[m] == a[m]);
        lemma_same_sizes_dist(a, b, m + 1, n);
    }
    assert forall|k: int| 0 <= k < b.len() && is_jump(#[trigger] b[k]) && !listed(misses, k)
        implies exists|t: int| t <= b.len() && lands(b, k, t) by {
        let hit = listed(idx, k) && k < n && is_jump(a[k]) && a[k] is JMP;
        if hit {
            lemma_same_sizes_dist(a, b, k + 1, n);
            assert(lands(b, k, n));
        } else {
            assert(b[k] == a[k]);
            let t = choose|t: int| t <= a.len() && lands(a, k, t);
            lemma_lands_same_sizes(a, b, k, t);
        }
    }
}

/// Adding to the offsets of `JMP`s that land just after themselves the bytes
/// up to the end makes them land at the end.
pub proof fn lemma_aim_exits(a: Seq<Instruction>, b: Seq<Instruction>, idx: Seq<usize>)
    requires
        aimed(a, b, idx, a.len() as int, true),
        jumps_ok(a),
        forall|q: int| 0 <= q < idx.len() && idx[q] < a.len() ==> a[#[trigger] idx[q] as int] == (Instruction::JMP { offset: 0 }),
    ensures
        jumps_ok(b),
{
    let n = a.len() as int;
    assert forall|k: int| 0 <= k < b.len() && is_jump(#[trigger] b[k]) implies exists|t: int| t <= b.len() && lands(b, k, t) by {
        let hit = listed(idx, k) && k < n && is_jump(a[k]);
        if hit {
            let q = choose|q: int| 0 <= q < idx.len() && idx[q] as int == k;
            assert(a[idx[q] as int] == (Instruction::JMP { offset: 0 }));
            lemma_same_sizes_dist(a, b, k + 1, n);
            assert(lands(b, k, n));
        } else {
            assert(b[k] == a[k]);
            let t = choose|t: int| t <= a.len() && lands(a, k, t);
            lemma_lands_same_sizes(a, b, k, t);
        }
    }
}


/// Landing `extra` past the end depends on `extra` modulo 2^16 only.
pub proof fn lemma_misses_mod(code: Seq<Instruction>, misses: Seq<usize>, e1: int, e2: int)
    requires
        misses_land(code, misses, e1),
        e1 % 65536 == e2 % 65536,
    ensures
        misses_land(code, misses, e2),
{
    assert forall|q: int| 0 <= q < misses.len() implies {
        &&& #[trigger] misses[q] < code.len()
        &&& is_jump(code[misses[q] as int])
        &&& !(code[misses[q] as int] is JMP)
        &&& lands_past(code, misses[q] as int, e2)
    } by {
        let m = misses[q] as int;
        let d = dist(code, m + 1, code.len() as int) as int;
        assert(lands_past(code, m, e1));
        vstd::arithmetic::div_mod::lemma_add_mod_noop(d, e1, 65536);
        vstd::arithmetic::div_mod::lemma_add_mod_noop(d, e2, 65536);
    }
}

/// Increasing indices below `base`, then increasing ones moved on by `base`.
pub proof fn lemma_increasing_concat(ma: Seq<usize>, mb: Seq<usize>, base: int)
    requires
        increasing(ma),
        increasing(mb),
        forall|q: int| 0 <= q < ma.len() ==> #[trigger] ma[q] < base,
        forall|q: int| 0 <= q < mb.len() ==> #[trigger] mb[q] + base <= usize::MAX,
        base >= 0,
    ensures
        increasing(ma + offset_indices(mb, base)),
{
    let mc = ma + offset_indices(mb, base);
    assert forall|i: int, j: int| 0 <= i < j < mc.len() implies mc[i] < mc[j] by {
        if j < ma.len() {
        } else if i >= ma.len() {
            assert(mb[i - ma.len()] < mb[j - ma.len()]);
            assert(mb[j - ma.len()] + base <= usize::MAX);
        } else {
            assert(ma[i] < base);
            assert(mb[j - ma.len()] + base <= usize::MAX);
        }
    }
}

} // verus!
