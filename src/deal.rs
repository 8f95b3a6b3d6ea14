use vstd::prelude::*;
use rand::rngs::StdRng;
use rand::seq::SliceRandom;
use rand::Rng;
use crate::card::{Resource, count_of, kind_of, token_of, with_count, with_value};
use crate::hex::Hex;
use crate::parser::{desert_tiles, total_tiles};
use crate::tally::{tally, lemma_tally_push, lemma_tally_remove, lemma_tally_update, lemma_tally_permutation, lemma_tally_at_least_entry};

verus! {

#[verifier::external_type_specification]
#[verifier::external_body]
pub struct ExStdRng(StdRng);

/// Relies on rand's `SliceRandom::shuffle`, which reorders the slice in place
/// by swapping its entries: the same entries come out, in some order.
#[verifier::external_body]
pub(crate) fn shuffle<T>(v: &mut Vec<T>, rng: &mut StdRng)
    ensures
        final(v)@.to_multiset() == old(v)@.to_multiset(),
        final(v)@.len() == old(v)@.len(),
{
    v.as_mut_slice().shuffle(rng)
}

/// Relies on rand's `Rng::gen_range` over `0..n`: a number below `n`. It
/// panics on an empty range, which `n > 0` rules out.
#[verifier::external_body]
pub(crate) fn random_below(rng: &mut StdRng, n: usize) -> (r: usize)
    requires
        n > 0,
    ensures
        r < n,
{
    rng.gen_range(0..n)
}

/// Counts the resources of kind `k`.
pub open spec fn of_kind(k: nat) -> spec_fn(Resource) -> nat {
    |r: Resource|
        if kind_of(r) == k {
            1nat
        } else {
            0nat
        }
}

/// Counts the units that template entries of kind `k` stand for.
pub open spec fn units_of(k: nat) -> spec_fn(Resource) -> nat {
    |r: Resource|
        if kind_of(r) == k {
            count_of(r)
        } else {
            0nat
        }
}

/// Counts the units that template entries other than deserts stand for.
pub open spec fn units_not_desert() -> spec_fn(Resource) -> nat {
    |r: Resource|
        if kind_of(r) != 5 {
            count_of(r)
        } else {
            0nat
        }
}

/// Counts the units that template entries stand for.
pub open spec fn all_units() -> spec_fn(Resource) -> nat {
    |r: Resource| count_of(r)
}

/// Counts the resources that carry dice number `v`.
pub open spec fn carrying(v: u8) -> spec_fn(Resource) -> nat {
    |r: Resource|
        if token_of(r) == Some(v) {
            1nat
        } else {
            0nat
        }
}

/// Counts the entries equal to `v`.
pub open spec fn equal_to(v: u8) -> spec_fn(u8) -> nat {
    |c: u8|
        if c == v {
            1nat
        } else {
            0nat
        }
}

/// The resources of the land cells among `ts`, in order.
pub open spec fn placed(ts: Seq<Option<Hex>>) -> Seq<Resource>
    decreases ts.len(),
{
    if ts.len() == 0 {
        Seq::empty()
    } else {
        let rest = placed(ts.drop_last());
        match ts.last() {
            Some(h) => rest.push(h.resource),
            None => rest,
        }
    }
}

/// The resources on the land cells `ts` were dealt from the template `t` and
/// the dice numbers `cs`: as many tiles of each kind as the template has,
/// each dice number on as many tiles as it appears in `cs`, and no dice
/// number on a desert.
pub open spec fn dealt_from(ts: Seq<Option<Hex>>, t: Seq<Resource>, cs: Seq<u8>) -> bool {
    let p = placed(ts);
    &&& forall|k: nat| k < 6 ==> #[trigger] tally(p, of_kind(k)) == tally(t, units_of(k))
    &&& forall|v: u8| #[trigger] tally(p, carrying(v)) == tally(cs, equal_to(v))
    &&& forall|q: int| 0 <= q < p.len() && kind_of(#[trigger] p[q]) == 5 ==> p[q] == Resource::Desert(None)
}

pub proof fn lemma_units_split(t: Seq<Resource>)
    ensures
        tally(t, all_units()) == total_tiles(t),
        tally(t, units_of(5)) == desert_tiles(t),
        tally(t, all_units()) == tally(t, units_not_desert()) + tally(t, units_of(5)),
    decreases t.len(),
{
    if t.len() > 0 {
        lemma_units_split(t.drop_last());
    }
}

/// The entries of a template that stand for at least one tile.
fn entries_in_play(t: &Vec<Resource>) -> (r: Vec<Resource>)
    ensures
        forall|k: nat| #[trigger] tally(r@, units_of(k)) == tally(t@, units_of(k)),
        tally(r@, units_not_desert()) == tally(t@, units_not_desert()),
        tally(r@, all_units()) == tally(t@, all_units()),
        forall|q: int| 0 <= q < r@.len() ==> count_of(#[trigger] r@[q]) > 0,
{
    let mut r: Vec<Resource> = Vec::new();
    let mut k: usize = 0;
    while k < t.len()
        invariant
            k <= t@.len(),
            forall|kk: nat| #[trigger] tally(r@, units_of(kk)) == tally(t@.take(k as int), units_of(kk)),
            tally(r@, units_not_desert()) == tally(t@.take(k as int), units_not_desert()),
            tally(r@, all_units()) == tally(t@.take(k as int), all_units()),
            forall|q: int| 0 <= q < r@.len() ==> count_of(#[trigger] r@[q]) > 0,
        decreases t@.len() - k,
    {
        let ghost before = r@;
        let e = t[k];
        assert(t@.take(k + 1) =~= t@.take(k as int).push(e));
        proof {
            lemma_tally_push(t@.take(k as int), e, units_not_desert());
            lemma_tally_push(t@.take(k as int), e, all_units());
            assert forall|kk: nat| #[trigger] tally(t@.take(k + 1), units_of(kk)) == tally(t@.take(k as int), units_of(kk)) + units_of(kk)(e) by {
                lemma_tally_push(t@.take(k as int), e, units_of(kk));
            }
        }
        if e.units() > 0 {
            r.push(e);
            proof {
                lemma_tally_push(before, e, units_not_desert());
                lemma_tally_push(before, e, all_units());
                assert forall|kk: nat| #[trigger] tally(r@, units_of(kk)) == tally(t@.take(k + 1), units_of(kk)) by {
                    lemma_tally_push(before, e, units_of(kk));
                }
            }
        }
        k = k + 1;
    }
    assert(t@.take(k as int) =~= t@);
    r
}

fn copy_chances(c: &Vec<u8>) -> (r: Vec<u8>)
    ensures
        r@ == c@,
{
    let mut r: Vec<u8> = Vec::new();
    let mut k: usize = 0;
    while k < c.len()
        invariant
            k <= c@.len(),
            r@ == c@.take(k as int),
        decreases c@.len() - k,
    {
        r.push(c[k]);
        k = k + 1;
        assert(r@ =~= c@.take(k as int));
    }
    assert(c@.take(k as int) =~= c@);
    r
}

/// The resource that drawing entry `idx` of `left` yields: a desert without a
/// dice number, any other kind with the last of `numbers`.
pub open spec fn drawn_item(left: Seq<Resource>, numbers: Seq<u8>, idx: int) -> Resource {
    let e = left[idx];
    if kind_of(e) == 5 {
        Resource::Desert(None)
    } else {
        with_value(kind_of(e), numbers.last())
    }
}

/// The entries left after drawing entry `idx`: its count goes down by one,
/// and it leaves once used up.
pub open spec fn left_after(left: Seq<Resource>, idx: int) -> Seq<Resource> {
    let e = left[idx];
    if count_of(e) <= 1 {
        left.remove(idx)
    } else {
        left.update(idx, with_count(e, (count_of(e) - 1) as u8))
    }
}

/// The dice numbers left after drawing entry `idx`: one fewer unless it was a desert.
pub open spec fn numbers_after(left: Seq<Resource>, numbers: Seq<u8>, idx: int) -> Seq<u8> {
    if kind_of(left[idx]) == 5 {
        numbers
    } else {
        numbers.drop_last()
    }
}

/// One draw, for the picked position `idx` among the entries still in play:
/// appends `drawn_item` to `drawn`, and takes the entry's unit and (unless it
/// is a desert) the last dice number.
pub fn draw_step(left: &mut Vec<Resource>, numbers: &mut Vec<u8>, drawn: &mut Vec<Resource>, idx: usize)
    requires
        idx < old(left)@.len(),
        count_of(old(left)@[idx as int]) > 0,
        kind_of(old(left)@[idx as int]) != 5 ==> old(numbers)@.len() > 0,
    ensures
        final(drawn)@ == old(drawn)@.push(drawn_item(old(left)@, old(numbers)@, idx as int)),
        final(left)@ == left_after(old(left)@, idx as int),
        final(numbers)@ == numbers_after(old(left)@, old(numbers)@, idx as int),
{
    let e = left[idx];
    let n = e.units();
    let item = if e.is_desert() {
        Resource::Desert(None)
    } else {
        let v = numbers.pop().unwrap();
        e.clone_with_value(v)
    };
    drawn.push(item);
    if n == 1 {
        left.remove(idx);
    } else {
        left.set(idx, e.with_units(n - 1));
    }
}

/// Draws one resource for each tile the template `template` describes, and
/// pairs each that is not a desert with one of the dice numbers `chances`.
///
/// Both lists are shuffled first. Then, while entries remain, an entry is
/// picked uniformly among the kinds still in play (not among the remaining
/// tiles, so a rare kind is as likely to be picked as a common one); a
/// desert is drawn without a number, any other kind with the next number;
/// and the entry's count goes down by one, the entry leaving once it is
/// used up.
pub fn draw_tiles(template: &Vec<Resource>, chances: &Vec<u8>, rng: &mut StdRng) -> (r: Vec<Resource>)
    requires
        total_tiles(template@) - desert_tiles(template@) == chances@.len(),
    ensures
        r@.len() == total_tiles(template@),
        forall|k: nat| k < 6 ==> #[trigger] tally(r@, of_kind(k)) == tally(template@, units_of(k)),
        forall|v: u8| #[trigger] tally(r@, carrying(v)) == tally(chances@, equal_to(v)),
        forall|q: int| 0 <= q < r@.len() && kind_of(#[trigger] r@[q]) == 5 ==> r@[q] == Resource::Desert(None),
{
    let ghost t = template@;
    let ghost ct = chances@;
    let mut left = entries_in_play(template);
    let mut numbers = copy_chances(chances);
    let ghost left0 = left@;
    let ghost numbers0 = numbers@;
    shuffle(&mut left, rng);
    shuffle(&mut numbers, rng);
    proof {
        lemma_units_split(t);
        lemma_tally_permutation(left@, left0, all_units());
        lemma_tally_permutation(left@, left0, units_not_desert());
        assert forall|k: nat| #[trigger] tally(left@, units_of(k)) == tally(t, units_of(k)) by {
            lemma_tally_permutation(left@, left0, units_of(k));
        }
        assert forall|v: u8| #[trigger] tally(numbers@, equal_to(v)) == tally(ct, equal_to(v)) by {
            lemma_tally_permutation(numbers@, numbers0, equal_to(v));
        }
        assert forall|q: int| 0 <= q < left@.len() implies count_of(#[trigger] left@[q]) > 0 by {
            vstd::seq_lib::to_multiset_contains(left@, left@[q]);
            assert(left@.contains(left@[q]));
            vstd::seq_lib::to_multiset_contains(left0, left@[q]);
        }
    }
    let mut drawn: Vec<Resource> = Vec::new();
    while left.len() > 0
        invariant
            forall|k: nat| k < 6 ==> #[trigger] tally(drawn@, of_kind(k)) + tally(left@, units_of(k)) == tally(t, units_of(k)),
            forall|v: u8| #[trigger] tally(drawn@, carrying(v)) + tally(numbers@, equal_to(v)) == tally(ct, equal_to(v)),
            numbers@.len() == tally(left@, units_not_desert()),
            forall|q: int| 0 <= q < left@.len() ==> count_of(#[trigger] left@[q]) > 0,
            forall|q: int| 0 <= q < drawn@.len() && kind_of(#[trigger] drawn@[q]) == 5 ==> drawn@[q] == Resource::Desert(None),
            drawn@.len() + tally(left@, all_units()) == total_tiles(t),
        decreases tally(left@, all_units()),
    {
        let ghost d0 = drawn@;
        let ghost l0 = left@;
        let ghost n0 = numbers@;
        let idx = random_below(rng, left.len());
        let ghost e = l0[idx as int];
        let ghost n = count_of(e);
        let ghost item = drawn_item(l0, n0, idx as int);
        let ghost replaced = with_count(e, (n - 1) as u8);
        proof {
            if kind_of(e) != 5 {
                lemma_tally_at_least_entry(l0, idx as int, units_not_desert());
            }
        }
        draw_step(&mut left, &mut numbers, &mut drawn, idx);
        proof {
            let g_all = all_units();
            let g_nd = units_not_desert();
            lemma_tally_push(d0, item, g_all);
            if n == 1 {
                lemma_tally_remove(l0, idx as int, g_all);
                lemma_tally_remove(l0, idx as int, g_nd);
            } else {
                lemma_tally_update(l0, idx as int, replaced, g_all);
                lemma_tally_update(l0, idx as int, replaced, g_nd);
            }
            if kind_of(e) != 5 {
                assert(n0.drop_last() == numbers@);
                assert(tally(n0, equal_to(n0.last())) == tally(numbers@, equal_to(n0.last())) + 1);
            }
            assert forall|k: nat| k < 6 implies #[trigger] tally(drawn@, of_kind(k)) + tally(left@, units_of(k)) == tally(t, units_of(k)) by {
                lemma_tally_push(d0, item, of_kind(k));
                if n == 1 {
                    lemma_tally_remove(l0, idx as int, units_of(k));
                } else {
                    lemma_tally_update(l0, idx as int, replaced, units_of(k));
                }
            }
            assert forall|v: u8| #[trigger] tally(drawn@, carrying(v)) + tally(numbers@, equal_to(v)) == tally(ct, equal_to(v)) by {
                lemma_tally_push(d0, item, carrying(v));
            }
            assert forall|q: int| 0 <= q < left@.len() implies count_of(#[trigger] left@[q]) > 0 by {
                if n == 1 {
                    if q >= idx {
                        assert(left@[q] == l0[q + 1]);
                    }
                }
            }
        }
    }
    proof {
        assert forall|k: nat| k < 6 implies #[trigger] tally(drawn@, of_kind(k)) == tally(t, units_of(k)) by {
            assert(tally(left@, units_of(k)) == 0);
        }
        assert forall|v: u8| #[trigger] tally(drawn@, carrying(v)) == tally(ct, equal_to(v)) by {
            assert(tally(numbers@, equal_to(v)) == 0);
        }
    }
    drawn
}

} // verus!
