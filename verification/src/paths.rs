//! The path deriver: pure functions from a target path to the id-named
//! hidden-copy path and to the sidecar state-file path.
//!
//! Paths are byte strings as the operating system sees them; `/` (byte 47)
//! separates directories. Both derived paths live in the target's directory
//! and prefix the target's file name, so they are always distinct from the
//! target itself and from each other.

use vstd::prelude::*;

use crate::digits::dec_digits;
use crate::digits::lemma_dec_digits_are_digits;
use crate::digits::lemma_dec_digits_injective;
use crate::digits::lemma_dec_digits_len_u32;
use crate::digits::push_dec;

verus! {

/// Index just after the last `/` of `p`; 0 when `p` has no `/`.
pub open spec fn split_point(p: Seq<u8>) -> int
    decreases p.len(),
{
    if p.len() == 0 {
        0
    } else if p.last() == 47 {
        p.len() as int
    } else {
        split_point(p.drop_last())
    }
}

/// The directory part of `p`, up to and including the last `/`.
pub open spec fn dir_part(p: Seq<u8>) -> Seq<u8> {
    p.take(split_point(p))
}

/// The file-name part of `p`, after the last `/`.
pub open spec fn file_name(p: Seq<u8>) -> Seq<u8> {
    p.skip(split_point(p))
}

/// A target path from which sibling paths can be derived: it has a
/// non-empty file name, and that name is not one of the two directory
/// aliases `.` and `..`.
pub open spec fn valid_target(p: Seq<u8>) -> bool {
    &&& file_name(p).len() > 0
    &&& file_name(p) != seq![46u8]
    &&& file_name(p) != seq![46u8, 46u8]
}

/// The fixed file-name prefix of the sidecar state file, `.easy-deploy_`.
pub open spec fn state_prefix() -> Seq<u8> {
    seq![46u8, 101u8, 97u8, 115u8, 121u8, 45u8, 100u8, 101u8, 112u8, 108u8, 111u8, 121u8, 95u8]
}

/// The hidden-copy path for deployment `id` of `target`:
/// `<dir>/.<id>_<name>`.
pub open spec fn hidden_path_of(target: Seq<u8>, id: nat) -> Seq<u8> {
    dir_part(target) + seq![46u8] + dec_digits(id) + seq![95u8] + file_name(target)
}

/// The sidecar state-file path for `target`: `<dir>/.easy-deploy_<name>`.
pub open spec fn state_path_of(target: Seq<u8>) -> Seq<u8> {
    dir_part(target) + state_prefix() + file_name(target)
}

/// Split points never exceed the length of the path.
pub proof fn lemma_split_point_range(p: Seq<u8>)
    ensures
        0 <= split_point(p) <= p.len(),
    decreases p.len(),
{
    if p.len() > 0 && p.last() != 47 {
        lemma_split_point_range(p.drop_last());
    }
}

/// Appends `src[from..to]` to `out`.
pub fn extend_bytes(out: &mut Vec<u8>, src: &Vec<u8>, from: usize, to: usize)
    requires
        from <= to <= src@.len(),
    ensures
        final(out)@ == old(out)@ + src@.subrange(from as int, to as int),
{
    let mut i: usize = from;
    while i < to
        invariant
            from <= i <= to <= src@.len(),
            out@ == old(out)@ + src@.subrange(from as int, i as int),
        decreases to - i,
    {
        out.push(src[i]);
        assert(out@ =~= old(out)@ + src@.subrange(from as int, i + 1));
        i = i + 1;
    }
}

/// A copy of a byte string.
pub fn copy_bytes(v: &Vec<u8>) -> (r: Vec<u8>)
    ensures
        r@ == v@,
{
    let mut out: Vec<u8> = Vec::new();
    extend_bytes(&mut out, v, 0, v.len());
    assert(v@.subrange(0, v@.len() as int) =~= v@);
    out
}

/// Finds the split point of `p`: the index just after its last `/`.
pub fn find_split(p: &Vec<u8>) -> (r: usize)
    ensures
        r == split_point(p@),
{
    proof {
        lemma_split_point_range(p@);
    }
    let mut i: usize = p.len();
    assert(p@.take(i as int) =~= p@);
    while i > 0
        invariant
            0 <= i <= p@.len(),
            split_point(p@) == split_point(p@.take(i as int)),
        decreases i,
    {
        if p[i - 1] == 47 {
            assert(p@.take(i as int).last() == 47);
            return i;
        }
        assert(p@.take(i as int).drop_last() =~= p@.take(i - 1));
        i = i - 1;
    }
    assert(p@.take(0) =~= Seq::<u8>::empty());
    0
}

/// True when sibling paths can be derived from `target`.
pub fn is_valid_target(target: &Vec<u8>) -> (r: bool)
    ensures
        r == valid_target(target@),
{
    proof {
        lemma_split_point_range(target@);
    }
    let sp = find_split(target);
    let n = target.len();
    if sp == n {
        assert(file_name(target@).len() == 0);
        return false;
    }
    if n - sp == 1 && target[sp] == 46 {
        assert(file_name(target@) =~= seq![46u8]);
        return false;
    }
    if n - sp == 2 && target[sp] == 46 && target[sp + 1] == 46 {
        assert(file_name(target@) =~= seq![46u8, 46u8]);
        return false;
    }
    assert(file_name(target@).len() > 0);
    assert(file_name(target@) != seq![46u8]) by {
        if file_name(target@) == seq![46u8] {
            assert(target@.skip(split_point(target@))[0] == 46);
        }
    }
    assert(file_name(target@) != seq![46u8, 46u8]) by {
        if file_name(target@) == seq![46u8, 46u8] {
            assert(target@.skip(split_point(target@))[0] == 46);
            assert(target@.skip(split_point(target@))[1] == 46);
        }
    }
    true
}

/// The hidden-copy path for deployment `id` of `target`.
pub fn get_hidden_target(target: &Vec<u8>, id: u32) -> (r: Vec<u8>)
    requires
        valid_target(target@),
    ensures
        r@ == hidden_path_of(target@, id as nat),
{
    proof {
        lemma_split_point_range(target@);
    }
    let sp = find_split(target);
    let mut out: Vec<u8> = Vec::new();
    extend_bytes(&mut out, target, 0, sp);
    out.push(46);
    assert(out@ =~= dir_part(target@) + seq![46u8]);
    push_dec(&mut out, id);
    out.push(95);
    extend_bytes(&mut out, target, sp, target.len());
    assert(target@.subrange(sp as int, target@.len() as int) =~= file_name(target@));
    assert(out@ =~= hidden_path_of(target@, id as nat));
    out
}

/// The sidecar state-file path for `target`.
pub fn get_state_path(target: &Vec<u8>) -> (r: Vec<u8>)
    requires
        valid_target(target@),
    ensures
        r@ == state_path_of(target@),
{
    proof {
        lemma_split_point_range(target@);
    }
    let sp = find_split(target);
    let mut out: Vec<u8> = Vec::new();
    extend_bytes(&mut out, target, 0, sp);
    out.push(46);
    out.push(101);
    out.push(97);
    out.push(115);
    out.push(121);
    out.push(45);
    out.push(100);
    out.push(101);
    out.push(112);
    out.push(108);
    out.push(111);
    out.push(121);
    out.push(95);
    assert(out@ =~= dir_part(target@) + state_prefix());
    extend_bytes(&mut out, target, sp, target.len());
    assert(target@.subrange(sp as int, target@.len() as int) =~= file_name(target@));
    assert(out@ =~= state_path_of(target@));
    out
}

/// The hidden-copy path is never the target itself.
pub proof fn lemma_hidden_ne_target(target: Seq<u8>, id: nat)
    ensures
        hidden_path_of(target, id) != target,
{
    lemma_split_point_range(target);
    lemma_dec_digits_are_digits(id);
    assert(hidden_path_of(target, id).len() > target.len());
}

/// The state-file path is never the target itself.
pub proof fn lemma_state_ne_target(target: Seq<u8>)
    ensures
        state_path_of(target) != target,
{
    lemma_split_point_range(target);
    assert(state_path_of(target).len() > target.len());
}

/// A hidden-copy path is never the state-file path.
pub proof fn lemma_hidden_ne_state(target: Seq<u8>, id: u32)
    ensures
        hidden_path_of(target, id as nat) != state_path_of(target),
{
    lemma_split_point_range(target);
    lemma_dec_digits_len_u32(id);
    assert(hidden_path_of(target, id as nat).len() < state_path_of(target).len());
}

/// Hidden-copy paths of distinct ids are distinct.
pub proof fn lemma_hidden_injective(target: Seq<u8>, i: u32, j: u32)
    requires
        hidden_path_of(target, i as nat) == hidden_path_of(target, j as nat),
    ensures
        i == j,
{
    lemma_split_point_range(target);
    lemma_dec_digits_are_digits(i as nat);
    lemma_dec_digits_are_digits(j as nat);
    let sp = split_point(target);
    let di = dec_digits(i as nat);
    let dj = dec_digits(j as nat);
    assert(dir_part(target).len() == sp);
    assert(hidden_path_of(target, i as nat).len() == sp + 1 + di.len() + 1 + file_name(
        target,
    ).len());
    assert(hidden_path_of(target, j as nat).len() == sp + 1 + dj.len() + 1 + file_name(
        target,
    ).len());
    assert(di.len() == dj.len());
    assert(di =~= dj) by {
        assert forall|m: int| 0 <= m < di.len() implies di[m] == dj[m] by {
            assert(hidden_path_of(target, i as nat)[sp + 1 + m] == di[m]);
            assert(hidden_path_of(target, j as nat)[sp + 1 + m] == dj[m]);
        }
    }
    lemma_dec_digits_injective(i as nat, j as nat);
}

} // verus!
