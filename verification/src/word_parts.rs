//! The bit-part splitter: how a 64-bit word's bit positions are grouped into
//! contiguous parts, consistently before and after a rotation.

use vstd::prelude::*;
use crate::NUM_BITS_PER_WORD;

verus! {

/// Description of which bit positions one part contains.
#[derive(Clone, Debug)]
pub struct PartInfo {
    /// The bit positions of the part.
    pub bits: Vec<usize>,
}

/// Description of how a word is split into parts.
#[derive(Clone, Debug)]
pub struct WordParts {
    /// The parts of the word.
    pub parts: Vec<PartInfo>,
}

/// The sum of a sequence of sizes.
pub open spec fn seq_sum(s: Seq<usize>) -> int
    decreases s.len(),
{
    if s.len() == 0 {
        0
    } else {
        s[0] + seq_sum(s.skip(1))
    }
}

/// Appending one size adds it to the sum.
pub proof fn lemma_seq_sum_push(s: Seq<usize>, x: usize)
    ensures
        seq_sum(s.push(x)) == seq_sum(s) + x,
    decreases s.len(),
{
    let t = s.push(x);
    if s.len() == 0 {
        assert(t.skip(1) =~= Seq::<usize>::empty());
        assert(seq_sum(t) == t[0] + seq_sum(t.skip(1)));
        assert(t[0] == x);
        assert(seq_sum(Seq::<usize>::empty()) == 0);
    } else {
        assert(t.skip(1) =~= s.skip(1).push(x));
        lemma_seq_sum_push(s.skip(1), x);
        assert(seq_sum(t) == t[0] + seq_sum(t.skip(1)));
        assert(t[0] == s[0]);
        assert(seq_sum(s) == s[0] + seq_sum(s.skip(1)));
    }
}

/// The number of parts a rotation spans: the rotation amount divided by the
/// part size, rounded up.
pub open spec fn spec_rotate_count(count: int, part_size: int) -> int {
    (count + part_size - 1) / part_size
}

/// Gets the rotation count in parts.
pub fn get_rotate_count(count: usize, part_size: usize) -> (r: usize)
    requires
        part_size >= 1,
        count + part_size - 1 <= usize::MAX,
    ensures
        r == spec_rotate_count(count as int, part_size as int),
{
    (count + (part_size - 1)) / part_size
}

/// Rotates a word that was split into parts to the right.
pub fn rotate<T>(parts: Vec<T>, count: usize, part_size: usize) -> (r: Vec<T>)
    requires
        part_size >= 1,
        count + part_size - 1 <= usize::MAX,
        spec_rotate_count(count as int, part_size as int) <= parts@.len(),
    ensures
        r@ == parts@.skip(parts@.len() - spec_rotate_count(count as int, part_size as int))
            + parts@.take(parts@.len() - spec_rotate_count(count as int, part_size as int)),
{
    let ghost orig = parts@;
    let k = get_rotate_count(count, part_size);
    let mut front = parts;
    let at = front.len() - k;
    let mut r = front.split_off(at);
    r.append(&mut front);
    proof {
        assert(r@ =~= orig.skip(at as int) + orig.take(at as int));
    }
    r
}

/// Rotates a word that was split into parts to the left.
pub fn rotate_rev<T>(parts: Vec<T>, count: usize, part_size: usize) -> (r: Vec<T>)
    requires
        part_size >= 1,
        count + part_size - 1 <= usize::MAX,
        spec_rotate_count(count as int, part_size as int) <= parts@.len(),
    ensures
        r@ == parts@.skip(spec_rotate_count(count as int, part_size as int))
            + parts@.take(spec_rotate_count(count as int, part_size as int)),
{
    let ghost orig = parts@;
    let k = get_rotate_count(count, part_size);
    let mut front = parts;
    let mut r = front.split_off(k);
    r.append(&mut front);
    proof {
        assert(r@ =~= orig.skip(k as int) + orig.take(k as int));
    }
    r
}

/// Returns the size in bits of each chunk when a 64-bit word is cut into
/// uniform chunks of `part_size` bits, with one shorter remainder chunk if 64
/// is not a multiple.
pub fn target_part_sizes(part_size: usize) -> (r: Vec<usize>)
    requires
        1 <= part_size <= 64,
    ensures
        r@.len() == 64int / (part_size as int) + if 64int % (part_size as int) == 0 { 0int } else { 1int },
        forall|i: int| 0 <= i < 64int / (part_size as int) ==> r@[i] == part_size,
        64int % (part_size as int) != 0 ==> r@[r@.len() - 1] == 64int % (part_size as int),
        seq_sum(r@) == 64,
        forall|i: int| 0 <= i < r@.len() ==> 1 <= #[trigger] r@[i] <= part_size,
{
    let num_full_chunks = NUM_BITS_PER_WORD / part_size;
    let partial_chunk_size = NUM_BITS_PER_WORD % part_size;
    let mut part_sizes: Vec<usize> = Vec::new();
    let mut i: usize = 0;
    while i < num_full_chunks
        invariant
            i <= num_full_chunks,
            num_full_chunks == 64int / (part_size as int),
            partial_chunk_size == 64int % (part_size as int),
            part_sizes@.len() == i,
            forall|j: int| 0 <= j < i ==> part_sizes@[j] == part_size,
            seq_sum(part_sizes@) == i * part_size,
            1 <= part_size <= 64,
        decreases num_full_chunks - i,
    {
        proof {
            lemma_seq_sum_push(part_sizes@, part_size);
            assert((i + 1) * part_size == i * part_size + part_size) by (nonlinear_arith);
        }
        part_sizes.push(part_size);
        i += 1;
    }
    proof {
        vstd::arithmetic::div_mod::lemma_fundamental_div_mod(64, part_size as int);
        assert(64 == (part_size as int) * (64int / (part_size as int)) + 64int % (part_size
            as int));
        assert(seq_sum(part_sizes@) == num_full_chunks * part_size);
        assert((part_size as int) * (64int / (part_size as int)) == num_full_chunks * part_size)
            by (nonlinear_arith)
            requires
                num_full_chunks == 64int / (part_size as int),
        ;
    }
    if partial_chunk_size > 0 {
        proof {
            lemma_seq_sum_push(part_sizes@, partial_chunk_size);
        }
        part_sizes.push(partial_chunk_size);
    }
    part_sizes
}

/// The bit positions of all parts, concatenated in order.
pub open spec fn flat_parts(s: Seq<PartInfo>) -> Seq<usize>
    decreases s.len(),
{
    if s.len() == 0 {
        Seq::empty()
    } else {
        s[0].bits@ + flat_parts(s.skip(1))
    }
}

/// Concatenating part lists concatenates their flattened bits.
pub proof fn lemma_flat_concat(a: Seq<PartInfo>, b: Seq<PartInfo>)
    ensures
        flat_parts(a + b) == flat_parts(a) + flat_parts(b),
    decreases a.len(),
{
    if a.len() == 0 {
        assert(a + b =~= b);
        assert(flat_parts(a) + flat_parts(b) =~= flat_parts(b));
    } else {
        assert((a + b).skip(1) =~= a.skip(1) + b);
        lemma_flat_concat(a.skip(1), b);
        assert((a + b)[0] == a[0]);
        assert(flat_parts(a + b) == (a + b)[0].bits@ + flat_parts((a + b).skip(1)));
        assert(flat_parts(a) == a[0].bits@ + flat_parts(a.skip(1)));
        assert(flat_parts(a + b) =~= flat_parts(a) + flat_parts(b));
    }
}

/// Appending one part appends its bits to the concatenation.
pub proof fn lemma_flat_push(s: Seq<PartInfo>, p: PartInfo)
    ensures
        flat_parts(s.push(p)) == flat_parts(s) + p.bits@,
{
    let single = seq![p];
    assert(s.push(p) =~= s + single);
    lemma_flat_concat(s, single);
    assert(single.skip(1) =~= Seq::<PartInfo>::empty());
    assert(flat_parts(single) == single[0].bits@ + flat_parts(single.skip(1)));
    assert(flat_parts(single) =~= p.bits@);
}

/// One more prefix element adds its size to the prefix sum.
pub proof fn lemma_seq_sum_take_step(s: Seq<usize>, t: int)
    requires
        0 <= t < s.len(),
    ensures
        seq_sum(s.take(t + 1)) == seq_sum(s.take(t)) + s[t],
{
    assert(s.take(t + 1) =~= s.take(t).push(s[t]));
    lemma_seq_sum_push(s.take(t), s[t]);
}

/// Prefix sums of sizes grow with the prefix.
pub proof fn lemma_seq_sum_take_mono(s: Seq<usize>, t1: int, t2: int)
    requires
        0 <= t1 <= t2 <= s.len(),
    ensures
        seq_sum(s.take(t1)) <= seq_sum(s.take(t2)),
    decreases t2 - t1,
{
    if t1 < t2 {
        lemma_seq_sum_take_mono(s, t1, t2 - 1);
        lemma_seq_sum_take_step(s, t2 - 1);
    }
}

/// The sum of a uniform prefix is the count times the common size.
pub proof fn lemma_seq_sum_uniform_prefix(s: Seq<usize>, t: int, v: usize)
    requires
        0 <= t <= s.len(),
        forall|j: int| 0 <= j < t ==> s[j] == v,
    ensures
        seq_sum(s.take(t)) == t * v,
    decreases t,
{
    if t == 0 {
        assert(s.take(0) =~= Seq::<usize>::empty());
    } else {
        lemma_seq_sum_uniform_prefix(s, t - 1, v);
        lemma_seq_sum_take_step(s, t - 1);
        assert(t * v == (t - 1) * v + v) by (nonlinear_arith);
    }
}

/// A multiple of the part size needs exactly that many parts.
proof fn lemma_ceil_exact(b: int, ps: int)
    requires
        ps >= 1,
        b >= 0,
        b % ps == 0,
    ensures
        spec_rotate_count(b, ps) == b / ps,
{
    vstd::arithmetic::div_mod::lemma_fundamental_div_mod(b, ps);
    assert(b == ps * (b / ps));
    assert(b + ps - 1 == (b / ps) * ps + (ps - 1)) by (nonlinear_arith)
        requires
            b == ps * (b / ps),
    ;
    vstd::arithmetic::div_mod::lemma_fundamental_div_mod_converse(b + ps - 1, ps, b / ps,
        ps - 1);
}

/// Crossing into the next block of `ps` positions raises the part count by
/// one.
proof fn lemma_ceil_step(b: int, x: int, ps: int)
    requires
        ps >= 1,
        b >= 0,
        b % ps == 0,
        b < x <= b + ps,
    ensures
        spec_rotate_count(x, ps) == b / ps + 1,
{
    vstd::arithmetic::div_mod::lemma_fundamental_div_mod(b, ps);
    let q = b / ps + 1;
    let r = x + ps - 1 - q * ps;
    assert(0 <= r < ps) by (nonlinear_arith)
        requires
            b == ps * (b / ps),
            q == b / ps + 1,
            r == x + ps - 1 - q * ps,
            b < x <= b + ps,
            ps >= 1,
    ;
    vstd::arithmetic::div_mod::lemma_fundamental_div_mod_converse(x + ps - 1, ps, q, r);
}

/// Whether some prefix of the target sizes sums exactly to the rotation
/// point, so the seam falls on a natural part boundary and splits no part.
pub open spec fn seam_on_boundary(ts: Seq<usize>, rot: int) -> bool {
    exists|tb: int| 0 <= tb <= ts.len() && seq_sum(#[trigger] ts.take(tb)) == rot
}

/// The rounded-up part count is the quotient, plus one for a remainder.
proof fn lemma_ceil_parts(x: int, ps: int)
    requires
        ps >= 1,
        x >= 0,
    ensures
        spec_rotate_count(x, ps) == x / ps + if x % ps == 0 { 0int } else { 1int },
{
    vstd::arithmetic::div_mod::lemma_fundamental_div_mod(x, ps);
    if x % ps == 0 {
        lemma_ceil_exact(x, ps);
    } else {
        let q = x / ps + 1;
        let r = x % ps - 1;
        assert(x + ps - 1 == q * ps + r) by (nonlinear_arith)
            requires
                x == ps * (x / ps) + x % ps,
                q == x / ps + 1,
                r == x % ps - 1,
        ;
        vstd::arithmetic::div_mod::lemma_fundamental_div_mod_converse(x + ps - 1, ps, q, r);
    }
}

/// The position that stands at index `j` after the bit list 0 to 63 is
/// rotated right by `rot` places.
pub open spec fn rotated_bit(rot: int, j: int) -> int {
    if j >= rot {
        j - rot
    } else {
        j + 64 - rot
    }
}

/// Every prefix sum of the size list that does not pass the rotation point is
/// a whole number of full parts, or is the rotation point itself.
pub open spec fn seam_aligned(ts: Seq<usize>, rot: int, ps: int) -> bool {
    forall|t: int|
        #![trigger seq_sum(ts.take(t))]
        0 <= t <= ts.len() && seq_sum(ts.take(t)) <= rot
            ==> (seq_sum(ts.take(t)) % ps == 0 || seq_sum(ts.take(t)) == rot)
}

/// The target sizes for a split that need not align across rotations: one
/// uniform run covering the rotation amount and one covering the rest, each
/// with its own remainder chunk.
fn two_run_part_sizes(part_size: usize, rot: usize) -> (r: Vec<usize>)
    requires
        1 <= part_size <= 64,
        rot < 64,
    ensures
        seq_sum(r@) == 64,
        (forall|i: int| 0 <= i < r@.len() ==> 1 <= #[trigger] r@[i] <= part_size),
        seam_aligned(r@, rot as int, part_size as int),
        seam_on_boundary(r@, rot as int),
        r@.len() == spec_rotate_count(rot as int, part_size as int) + spec_rotate_count(
            64 - rot as int, part_size as int),
{
    let num_parts_a = rot / part_size;
    let partial_part_a = rot % part_size;
    let num_parts_b = (64 - rot) / part_size;
    let partial_part_b = (64 - rot) % part_size;
    proof {
        vstd::arithmetic::div_mod::lemma_fundamental_div_mod(rot as int, part_size as int);
        vstd::arithmetic::div_mod::lemma_fundamental_div_mod(64 - rot, part_size as int);
    }
    let mut part_sizes: Vec<usize> = Vec::new();
    let mut m: usize = 0;
    while m < num_parts_a
        invariant
            m <= num_parts_a,
            1 <= part_size <= 64,
            part_sizes@.len() == m,
            forall|l: int| 0 <= l < m ==> part_sizes@[l] == part_size,
            seq_sum(part_sizes@) == m * part_size,
        decreases num_parts_a - m,
    {
        proof {
            lemma_seq_sum_push(part_sizes@, part_size);
            assert((m + 1) * part_size == m * part_size + part_size) by (nonlinear_arith);
        }
        part_sizes.push(part_size);
        m += 1;
    }
    proof {
        assert(num_parts_a * part_size == (part_size as int) * (rot as int / part_size as int))
            by (nonlinear_arith)
            requires
                num_parts_a == rot as int / part_size as int,
        ;
    }
    if partial_part_a > 0 {
        proof {
            lemma_seq_sum_push(part_sizes@, partial_part_a);
        }
        part_sizes.push(partial_part_a);
    }
    let ghost a_list = part_sizes@;
    proof {
        assert(seq_sum(a_list) == rot);
        assert(a_list.len() >= num_parts_a);
        assert(forall|l: int| 0 <= l < num_parts_a ==> a_list[l] == part_size);
        assert(forall|l: int| 0 <= l < a_list.len() ==> 1 <= #[trigger] a_list[l] <= part_size);
    }
    let mut m2: usize = 0;
    while m2 < num_parts_b
        invariant
            m2 <= num_parts_b,
            1 <= part_size <= 64,
            part_sizes@.len() == a_list.len() + m2,
            forall|l: int| 0 <= l < a_list.len() ==> part_sizes@[l] == a_list[l],
            forall|l: int| a_list.len() <= l < part_sizes@.len() ==> part_sizes@[l]
                == part_size,
            seq_sum(part_sizes@) == rot + m2 * part_size,
            seq_sum(a_list) == rot,
            num_parts_a <= a_list.len() <= num_parts_a + 1,
            forall|l: int| 0 <= l < num_parts_a ==> a_list[l] == part_size,
            forall|l: int| 0 <= l < a_list.len() ==> 1 <= #[trigger] a_list[l] <= part_size,
        decreases num_parts_b - m2,
    {
        proof {
            lemma_seq_sum_push(part_sizes@, part_size);
            assert((m2 + 1) * part_size == m2 * part_size + part_size) by (nonlinear_arith);
        }
        part_sizes.push(part_size);
        m2 += 1;
    }
    proof {
        assert(num_parts_b * part_size == (part_size as int) * ((64 - rot) / part_size as int))
            by (nonlinear_arith)
            requires
                num_parts_b == (64 - rot as int) / part_size as int,
        ;
    }
    if partial_part_b > 0 {
        proof {
            lemma_seq_sum_push(part_sizes@, partial_part_b);
        }
        part_sizes.push(partial_part_b);
    }
    proof {
        let ts = part_sizes@;
        let al = a_list.len() as int;
        assert(seq_sum(ts) == 64);
        assert(ts.take(al) =~= a_list);
        assert forall|t: int|
            0 <= t <= ts.len() && #[trigger] seq_sum(ts.take(t)) <= rot implies (seq_sum(
            ts.take(t)) % (part_size as int) == 0 || seq_sum(ts.take(t)) == rot) by {
            if t <= num_parts_a {
                assert(forall|j: int| 0 <= j < t ==> ts[j] == a_list[j] && a_list[j]
                    == part_size);
                lemma_seq_sum_uniform_prefix(ts, t, part_size);
                vstd::arithmetic::div_mod::lemma_mod_multiples_basic(t, part_size as int);
            } else if t < al {
                assert(false);
            } else if t == al {
                assert(seq_sum(ts.take(t)) == rot);
            } else {
                lemma_seq_sum_take_mono(ts, al, t);
                assert(seq_sum(ts.take(t)) >= rot);
            }
        }
        assert forall|i: int| 0 <= i < ts.len() implies 1 <= #[trigger] ts[i] <= part_size by {
            if i < a_list.len() {
                assert(ts[i] == a_list[i]);
            }
        }
        assert(seq_sum(ts.take(al)) == rot);
        assert(seam_on_boundary(ts, rot as int));
        lemma_ceil_parts(rot as int, part_size as int);
        lemma_ceil_parts(64 - rot as int, part_size as int);
        assert(a_list.len() == num_parts_a + if rot as int % (part_size as int) == 0 {
            0int
        } else {
            1int
        });
        assert(ts.len() == a_list.len() + num_parts_b + if (64 - rot as int) % (part_size
            as int) == 0 {
            0int
        } else {
            1int
        });
    }
    part_sizes
}

/// Law: algebraic rotation by parts equals bit rotation. For a part list
/// that flattens to the positions 0 to 63 in order and whose final `k`
/// parts together hold `rot` positions — as `WordParts::new` returns —
/// turning the last `k` parts to the front flattens to the bit list 0 to 63
/// rotated right by `rot` places.
pub proof fn lemma_part_rotation_matches_bit_rotation(parts: Seq<PartInfo>, rot: int, k: int)
    requires
        0 <= rot < 64,
        flat_parts(parts) == Seq::new(64, |i: int| i as usize),
        0 <= k <= parts.len(),
        flat_parts(parts.take(parts.len() - k)).len() == 64 - rot,
    ensures
        flat_parts(parts.skip(parts.len() - k) + parts.take(parts.len() - k)) == Seq::new(64,
            |i: int| rotated_bit(rot, i) as usize),
{
    let n = parts.len() as int;
    let front = parts.take(n - k);
    let back = parts.skip(n - k);
    lemma_flat_concat(front, back);
    assert(front + back =~= parts);
    lemma_flat_concat(back, front);
    let ff = flat_parts(front);
    let fb = flat_parts(back);
    assert(ff + fb == flat_parts(parts));
    assert(front == parts.take(parts.len() - k));
    assert(ff.len() == 64 - rot);
    assert((ff + fb).len() == 64);
    assert(fb.len() == rot);
    assert forall|i: int| 0 <= i < 64 implies (fb + ff)[i] == rotated_bit(rot, i) as usize by {
        if i < rot {
            assert((fb + ff)[i] == fb[i]);
            assert(fb[i] == (ff + fb)[64 - rot + i]);
        } else {
            assert((fb + ff)[i] == ff[i - rot]);
            assert(ff[i - rot] == (ff + fb)[i - rot]);
        }
    }
    assert(flat_parts(back + front) =~= Seq::new(64, |i: int| rotated_bit(rot, i) as usize));
}

impl WordParts {
    /// Returns a description of how a word will be split into parts: the bit
    /// positions 0 to 63, rotated right by `rot`, are consumed into parts of
    /// the target sizes, a new part is started early whenever position 0 is
    /// met mid-part, and the part list is then turned so that the part
    /// holding position 0 comes first. The flattened result lists positions
    /// 0 to 63 in order, and the last `spec_rotate_count` parts together
    /// hold exactly the `rot` positions that a right rotation carries over
    /// the word boundary.
    pub fn new(part_size: usize, rot: usize, normalize: bool) -> (r: Self)
        requires
            1 <= part_size <= 64,
            rot < 64,
        ensures
            r.parts@.len() > 0,
            (forall|i: int| 0 <= i < r.parts@.len() ==> #[trigger] r.parts@[i].bits@.len() > 0),
            (forall|i: int| 0 <= i < r.parts@.len() ==> #[trigger] r.parts@[i].bits@.len()
                <= part_size),
            normalize ==> r.parts@.len() == 64int / (part_size as int) + (if 64int
                % (part_size as int) == 0 { 0int } else { 1int }) + (if rot as int
                % (part_size as int) == 0 { 0int } else { 1int }),
            !normalize ==> r.parts@.len() == spec_rotate_count(rot as int, part_size as int)
                + spec_rotate_count(64 - rot as int, part_size as int),
            flat_parts(r.parts@) == Seq::new(64, |i: int| i as usize),
            r.parts@[0].bits@[0] == 0,
            spec_rotate_count(rot as int, part_size as int) < r.parts@.len(),
            flat_parts(r.parts@.take(r.parts@.len() - spec_rotate_count(rot as int,
                part_size as int))).len() == 64 - rot,
    {
        let ghost ps = part_size as int;
        let mut bits: Vec<usize> = Vec::new();
        let mut j: usize = 0;
        while j < 64
            invariant
                j <= 64,
                rot < 64,
                bits@.len() == j,
                forall|l: int| 0 <= l < j ==> bits@[l] == rotated_bit(rot as int, l),
            decreases 64 - j,
        {
            if j >= rot {
                bits.push(j - rot);
            } else {
                bits.push(j + 64 - rot);
            }
            j += 1;
        }
        let target_sizes: Vec<usize> = if normalize {
            let uniform = target_part_sizes(part_size);
            proof {
                assert forall|t: int|
                    0 <= t <= uniform@.len() && #[trigger] seq_sum(uniform@.take(t)) <= rot
                    implies (seq_sum(uniform@.take(t)) % (part_size as int) == 0 || seq_sum(
                    uniform@.take(t)) == rot) by {
                    if t <= 64int / (part_size as int) {
                        assert(forall|l: int| 0 <= l < t ==> uniform@[l] == part_size);
                        lemma_seq_sum_uniform_prefix(uniform@, t, part_size);
                        vstd::arithmetic::div_mod::lemma_mod_multiples_basic(t,
                            part_size as int);
                    } else {
                        assert(t == uniform@.len());
                        assert(uniform@.take(t) =~= uniform@);
                    }
                }
                vstd::arithmetic::div_mod::lemma_fundamental_div_mod(rot as int,
                    part_size as int);
                if rot % part_size == 0 {
                    let tb = rot as int / (part_size as int);
                    vstd::arithmetic::div_mod::lemma_div_is_ordered(rot as int, 64,
                        part_size as int);
                    assert(forall|l: int| 0 <= l < tb ==> uniform@[l] == part_size);
                    lemma_seq_sum_uniform_prefix(uniform@, tb, part_size);
                    assert((part_size as int) * tb == tb * (part_size as int))
                        by (nonlinear_arith);
                    assert(seq_sum(uniform@.take(tb)) == rot);
                    assert(seam_on_boundary(uniform@, rot as int));
                } else {
                    assert forall|tb: int| 0 <= tb <= uniform@.len() implies seq_sum(
                        #[trigger] uniform@.take(tb)) != rot by {
                        if tb <= 64int / (part_size as int) {
                            assert(forall|l: int| 0 <= l < tb ==> uniform@[l] == part_size);
                            lemma_seq_sum_uniform_prefix(uniform@, tb, part_size);
                            vstd::arithmetic::div_mod::lemma_mod_multiples_basic(tb,
                                part_size as int);
                        } else {
                            assert(tb == uniform@.len());
                            assert(uniform@.take(tb) =~= uniform@);
                        }
                    }
                    assert(!seam_on_boundary(uniform@, rot as int));
                }
            }
            uniform
        } else {
            two_run_part_sizes(part_size, rot)
        };
        let ghost ts = target_sizes@;
        let ghost mut br: int = 0;
        let mut parts: Vec<PartInfo> = Vec::new();
        let mut rot_idx: usize = 0;
        let mut idx: usize = 0;
        let mut t: usize = 0;
        proof {
            assert(ts.take(0) =~= Seq::<usize>::empty());
            assert(bits@.take(0) =~= Seq::<usize>::empty());
            lemma_ceil_exact(0, ps);
        }
        while t < target_sizes.len()
            invariant
                1 <= part_size <= 64,
                rot < 64,
                ps == part_size as int,
                ts == target_sizes@,
                bits@.len() == 64,
                forall|l: int| 0 <= l < 64 ==> bits@[l] == rotated_bit(rot as int, l),
                seq_sum(ts) == 64,
                forall|l: int| 0 <= l < ts.len() ==> 1 <= #[trigger] ts[l] <= part_size,
                seam_aligned(ts, rot as int, ps),
                t <= ts.len(),
                idx <= 64,
                idx == seq_sum(ts.take(t as int)),
                parts@.len() == t + br,
                0 <= br <= 1,
                br == 1 ==> flat_parts(parts@).len() >= rot,
                br == 1 ==> !seam_on_boundary(ts, rot as int),
                idx > rot && br == 0 ==> seam_on_boundary(ts, rot as int),
                normalize ==> ts.len() == 64int / ps + (if 64int % ps == 0 { 0int } else {
                    1int
                }),
                !normalize ==> ts.len() == spec_rotate_count(rot as int, ps)
                    + spec_rotate_count(64 - rot as int, ps),
                normalize ==> (seam_on_boundary(ts, rot as int) <==> rot as int % ps == 0),
                !normalize ==> seam_on_boundary(ts, rot as int),
                flat_parts(parts@) == bits@.take(idx as int),
                forall|l: int| 0 <= l < parts@.len() ==> #[trigger] parts@[l].bits@.len() > 0,
                forall|l: int| 0 <= l < parts@.len() ==> #[trigger] parts@[l].bits@.len()
                    <= part_size,
                idx <= rot ==> parts@.len() == spec_rotate_count(
                    flat_parts(parts@).len() as int, ps) && (flat_parts(parts@).len() as int
                    % ps == 0 || flat_parts(parts@).len() == rot),
                idx > rot ==> rot_idx == spec_rotate_count(rot as int, ps) && rot_idx
                    <= parts@.len() && flat_parts(parts@.take(rot_idx as int)).len() == rot,
            decreases ts.len() - t,
        {
            let tsz = target_sizes[t];
            let mut num_consumed: usize = 0;
            proof {
                lemma_seq_sum_take_step(ts, t as int);
                lemma_seq_sum_take_mono(ts, t as int + 1, ts.len() as int);
                assert(ts.take(ts.len() as int) =~= ts);
            }
            while num_consumed < tsz
                invariant
                    1 <= part_size <= 64,
                    rot < 64,
                    ps == part_size as int,
                    ts == target_sizes@,
                    bits@.len() == 64,
                    forall|l: int| 0 <= l < 64 ==> bits@[l] == rotated_bit(rot as int, l),
                    seq_sum(ts) == 64,
                    forall|l: int| 0 <= l < ts.len() ==> 1 <= #[trigger] ts[l] <= part_size,
                    seam_aligned(ts, rot as int, ps),
                    t < ts.len(),
                    tsz == ts[t as int],
                    num_consumed <= tsz,
                    idx == seq_sum(ts.take(t as int)) + num_consumed,
                    idx + (tsz - num_consumed) <= 64,
                    parts@.len() == t + br + (if num_consumed == tsz { 1int } else { 0int }),
                    0 <= br <= 1,
                    br == 1 ==> flat_parts(parts@).len() >= rot,
                    br == 1 ==> !seam_on_boundary(ts, rot as int),
                    idx > rot && br == 0 ==> seam_on_boundary(ts, rot as int),
                    normalize ==> ts.len() == 64int / ps + (if 64int % ps == 0 { 0int } else {
                        1int
                    }),
                    !normalize ==> ts.len() == spec_rotate_count(rot as int, ps)
                        + spec_rotate_count(64 - rot as int, ps),
                    normalize ==> (seam_on_boundary(ts, rot as int) <==> rot as int % ps == 0),
                    !normalize ==> seam_on_boundary(ts, rot as int),
                    0 < num_consumed < tsz ==> br == 1,
                    flat_parts(parts@) == bits@.take(idx as int),
                    forall|l: int| 0 <= l < parts@.len() ==> #[trigger] parts@[l].bits@.len()
                        > 0,
                    forall|l: int| 0 <= l < parts@.len() ==> #[trigger] parts@[l].bits@.len()
                        <= part_size,
                    idx <= rot ==> parts@.len() == spec_rotate_count(
                        flat_parts(parts@).len() as int, ps) && (flat_parts(
                        parts@).len() as int % ps == 0 || flat_parts(parts@).len() == rot),
                    idx > rot ==> rot_idx == spec_rotate_count(rot as int, ps) && rot_idx
                        <= parts@.len() && flat_parts(parts@.take(rot_idx as int)).len()
                        == rot,
                decreases tsz - num_consumed,
            {
                let ghost nc0: usize = num_consumed;
                let mut part_bits: Vec<usize> = Vec::new();
                while num_consumed < tsz
                    invariant
                        1 <= part_size <= 64,
                        rot < 64,
                        ps == part_size as int,
                        ts == target_sizes@,
                        bits@.len() == 64,
                        forall|l: int| 0 <= l < 64 ==> bits@[l] == rotated_bit(rot as int, l),
                        seq_sum(ts) == 64,
                        forall|l: int| 0 <= l < ts.len() ==> 1 <= #[trigger] ts[l]
                            <= part_size,
                        seam_aligned(ts, rot as int, ps),
                        t < ts.len(),
                        tsz == ts[t as int],
                        nc0 < tsz,
                        nc0 <= num_consumed <= tsz,
                        num_consumed == nc0 + part_bits@.len(),
                        nc0 > 0 ==> br == 1,
                        idx == seq_sum(ts.take(t as int)) + num_consumed,
                        idx + (tsz - num_consumed) <= 64,
                        parts@.len() == t + br,
                        0 <= br <= 1,
                        br == 1 ==> flat_parts(parts@).len() >= rot,
                        br == 1 ==> !seam_on_boundary(ts, rot as int),
                        idx > rot && br == 0 ==> seam_on_boundary(ts, rot as int),
                        normalize ==> ts.len() == 64int / ps + (if 64int % ps == 0 { 0int } else {
                            1int
                        }),
                        !normalize ==> ts.len() == spec_rotate_count(rot as int, ps)
                            + spec_rotate_count(64 - rot as int, ps),
                        normalize ==> (seam_on_boundary(ts, rot as int) <==> rot as int % ps == 0),
                        !normalize ==> seam_on_boundary(ts, rot as int),
                        flat_parts(parts@) + part_bits@ == bits@.take(idx as int),
                        forall|l: int| 0 <= l < parts@.len() ==> #[trigger]
                            parts@[l].bits@.len() > 0,
                        forall|l: int| 0 <= l < parts@.len() ==> #[trigger]
                            parts@[l].bits@.len() <= part_size,
                        idx <= rot ==> parts@.len() == spec_rotate_count(
                            flat_parts(parts@).len() as int, ps) && (flat_parts(
                            parts@).len() as int % ps == 0 || flat_parts(parts@).len()
                            == rot),
                        idx > rot ==> rot_idx == spec_rotate_count(rot as int, ps) && rot_idx
                            <= parts@.len() && flat_parts(parts@.take(rot_idx as int)).len()
                            == rot,
                    ensures
                        num_consumed == nc0 + part_bits@.len(),
                        nc0 <= num_consumed <= tsz,
                        num_consumed == tsz || (part_bits@.len() > 0 && idx < 64
                            && bits@[idx as int] == 0),
                        idx == seq_sum(ts.take(t as int)) + num_consumed,
                        idx + (tsz - num_consumed) <= 64,
                        parts@.len() == t + br,
                        0 <= br <= 1,
                        br == 1 ==> flat_parts(parts@).len() >= rot,
                        br == 1 ==> !seam_on_boundary(ts, rot as int),
                        idx > rot && br == 0 ==> seam_on_boundary(ts, rot as int),
                        normalize ==> ts.len() == 64int / ps + (if 64int % ps == 0 { 0int } else {
                            1int
                        }),
                        !normalize ==> ts.len() == spec_rotate_count(rot as int, ps)
                            + spec_rotate_count(64 - rot as int, ps),
                        normalize ==> (seam_on_boundary(ts, rot as int) <==> rot as int % ps == 0),
                        !normalize ==> seam_on_boundary(ts, rot as int),
                        flat_parts(parts@) + part_bits@ == bits@.take(idx as int),
                        forall|l: int| 0 <= l < parts@.len() ==> #[trigger]
                            parts@[l].bits@.len() > 0,
                        forall|l: int| 0 <= l < parts@.len() ==> #[trigger]
                            parts@[l].bits@.len() <= part_size,
                        idx <= rot ==> parts@.len() == spec_rotate_count(
                            flat_parts(parts@).len() as int, ps) && (flat_parts(
                            parts@).len() as int % ps == 0 || flat_parts(parts@).len()
                            == rot),
                        idx > rot ==> rot_idx == spec_rotate_count(rot as int, ps) && rot_idx
                            <= parts@.len() && flat_parts(parts@.take(rot_idx as int)).len()
                            == rot,
                    decreases tsz - num_consumed,
                {
                    if part_bits.len() > 0 && bits[idx] == 0 {
                        break;
                    }
                    if bits[idx] == 0 {
                        proof {
                            assert(bits@[idx as int] == rotated_bit(rot as int, idx as int));
                            assert(idx == rot);
                            assert(part_bits@.len() == 0);
                            assert(flat_parts(parts@) + part_bits@ == bits@.take(rot as int));
                            assert(flat_parts(parts@) =~= bits@.take(rot as int));
                            assert(flat_parts(parts@).len() == rot);
                            assert(parts@.take(parts@.len() as int) =~= parts@);
                            if nc0 == 0 {
                                assert(seq_sum(ts.take(t as int)) == rot);
                                assert(seam_on_boundary(ts, rot as int));
                            }
                        }
                        rot_idx = parts.len();
                    }
                    proof {
                        assert(bits@[idx as int] == rotated_bit(rot as int, idx as int));
                        assert(bits@.take(idx as int).push(bits@[idx as int]) =~= bits@.take(
                            idx as int + 1));
                        assert((flat_parts(parts@) + part_bits@).push(bits@[idx as int])
                            =~= flat_parts(parts@) + part_bits@.push(bits@[idx as int]));
                    }
                    part_bits.push(bits[idx]);
                    idx += 1;
                    num_consumed += 1;
                }
                let ghost b0: int = flat_parts(parts@).len() as int;
                let p = PartInfo { bits: part_bits };
                proof {
                    lemma_flat_push(parts@, p);
                    if idx <= rot {
                        assert(b0 % ps == 0) by {
                            if b0 == rot {
                                assert(b0 < idx <= rot);
                            }
                        }
                        lemma_ceil_exact(b0, ps);
                        lemma_ceil_step(b0, idx as int, ps);
                        if num_consumed == tsz {
                            lemma_seq_sum_take_step(ts, t as int);
                            assert(seq_sum(ts.take(t as int + 1)) == idx);
                            assert(idx as int % ps == 0 || idx == rot);
                        } else {
                            assert(bits@[idx as int] == 0);
                            assert(bits@[idx as int] == rotated_bit(rot as int, idx as int));
                            assert(idx == rot);
                        }
                    } else {
                        if part_bits@.len() > 0 && idx < 64 {
                            assert(bits@[idx as int] == rotated_bit(rot as int, idx as int));
                        }
                        assert(num_consumed == tsz);
                        if rot_idx <= parts@.len() {
                            assert(parts@.push(p).take(rot_idx as int) =~= parts@.take(
                                rot_idx as int));
                        }
                    }
                    if num_consumed < tsz {
                        assert(idx == rot);
                        assert(b0 < rot);
                        assert(br == 0);
                        lemma_seq_sum_take_step(ts, t as int);
                        assert(seq_sum(ts.take(t as int)) < rot);
                        assert(rot < seq_sum(ts.take(t as int + 1)));
                        assert forall|tb: int| 0 <= tb <= ts.len() implies seq_sum(#[trigger]
                            ts.take(tb)) != rot by {
                            if tb <= t {
                                lemma_seq_sum_take_mono(ts, tb, t as int);
                            } else {
                                lemma_seq_sum_take_mono(ts, t as int + 1, tb);
                            }
                        }
                        assert(!seam_on_boundary(ts, rot as int));
                        br = 1;
                    }
                }
                parts.push(p);
            }
            t += 1;
            proof {
                assert(idx == seq_sum(ts.take(t as int)));
            }
        }
        proof {
            assert(ts.take(ts.len() as int) =~= ts);
            assert(idx == 64);
            assert(bits@.take(64) =~= bits@);
            assert(flat_parts(parts@) == bits@);
            assert(rot_idx < parts@.len()) by {
                if rot_idx == parts@.len() {
                    assert(parts@.take(rot_idx as int) =~= parts@);
                }
            }
            if seam_on_boundary(ts, rot as int) {
                assert(br == 0);
            } else {
                assert(br == 1);
            }
            assert(parts@.len() == ts.len() + br);
        }
        let ghost parts0 = parts@;
        let mut tail = parts.split_off(rot_idx);
        tail.append(&mut parts);
        proof {
            let k = rot_idx as int;
            let n = parts0.len() as int;
            assert(tail@ == parts0.skip(k) + parts0.take(k));
            lemma_flat_concat(parts0.take(k), parts0.skip(k));
            assert(parts0.take(k) + parts0.skip(k) =~= parts0);
            assert(flat_parts(parts0.take(k)) + flat_parts(parts0.skip(k)) == bits@);
            assert(flat_parts(parts0.take(k)) =~= bits@.take(rot as int)) by {
                assert(flat_parts(parts0.take(k)).len() == rot);
            }
            assert(flat_parts(parts0.skip(k)) =~= bits@.skip(rot as int)) by {
                assert(flat_parts(parts0.take(k)).len() == rot);
            }
            lemma_flat_concat(parts0.skip(k), parts0.take(k));
            assert(flat_parts(tail@) == bits@.skip(rot as int) + bits@.take(rot as int));
            assert(flat_parts(tail@) =~= Seq::new(64, |i: int| i as usize)) by {
                assert forall|i: int| 0 <= i < 64 implies (bits@.skip(rot as int) + bits@.take(
                    rot as int))[i] == i by {
                    if i < 64 - rot {
                        assert(bits@[rot + i] == rotated_bit(rot as int, rot + i));
                    } else {
                        assert(bits@[i - 64 + rot] == rotated_bit(rot as int, i - 64 + rot));
                    }
                }
            }
            assert(parts0.skip(k).len() > 0);
            assert(tail@[0] == parts0[k]);
            assert(flat_parts(parts0.skip(k)) == parts0[k].bits@ + flat_parts(
                parts0.skip(k).skip(1)));
            assert(parts0[k].bits@.len() > 0);
            assert(parts0[k].bits@[0] == flat_parts(parts0.skip(k))[0]);
            assert(bits@.skip(rot as int)[0] == bits@[rot as int]);
            assert(bits@[rot as int] == rotated_bit(rot as int, rot as int));
            assert(bits@[rot as int] == 0);
            assert(tail@.take(tail@.len() - k) =~= parts0.skip(k));
            assert(flat_parts(tail@.take(tail@.len() - k)).len() == 64 - rot);
            assert forall|i: int| 0 <= i < tail@.len() implies #[trigger] tail@[i].bits@.len()
                > 0 && tail@[i].bits@.len() <= part_size by {
                if i < n - k {
                    assert(tail@[i] == parts0[k + i]);
                } else {
                    assert(tail@[i] == parts0[i - (n - k)]);
                }
            }
            assert(tail@.len() == parts0.len());
        }
        WordParts { parts: tail }
    }
}

} // verus!
