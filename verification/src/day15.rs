//! Lens library: a small hash decides into which of 256 boxes a lens
//! goes, and the boxes are weighed by what they hold.

use crate::text::{is_blank, parse_u64, parts_of, split_by, split_once, split_once_of, unsigned_text};
use vstd::prelude::*;
use vstd::string::StringSliceAdditionalSpecFns;

verus! {

/// A lens: its label and its focal length.
pub type Lens = (Seq<u8>, u64);

/// The largest focal length a lens may have.
pub const MAX_FOCAL: u64 = 0xFFFF_FFFF;

/// The hash of `s`: for each byte, add it, multiply by 17, and keep the
/// remainder of 256.
pub open spec fn hash_of(s: Seq<u8>) -> int
    decreases s.len(),
{
    if s.len() == 0 {
        0
    } else {
        ((hash_of(s.drop_last()) + s.last()) * 17) % 256
    }
}

/// `s` without the blanks at its end.
pub open spec fn trimmed(s: Seq<u8>) -> Seq<u8>
    decreases s.len(),
{
    if s.len() > 0 && is_blank(s.last()) {
        trimmed(s.drop_last())
    } else {
        s
    }
}

/// A single comma.
pub open spec fn comma() -> Seq<u8> {
    seq![44u8]
}

/// An equals sign.
pub open spec fn equals() -> Seq<u8> {
    seq![61u8]
}

/// The steps that `text` lists between commas.
pub open spec fn steps_of(text: Seq<u8>) -> Seq<Seq<u8>> {
    parts_of(trimmed(text), comma())
}

/// The sum of the hashes of the first `upto` of `steps`.
pub open spec fn hash_sum(steps: Seq<Seq<u8>>, upto: int) -> int
    decreases upto,
{
    if upto <= 0 {
        0
    } else {
        hash_sum(steps, upto - 1) + hash_of(steps[upto - 1])
    }
}

/// Where the first lens labelled `label` stands among the first `upto`
/// lenses of `lenses`, or `-1`.
pub open spec fn slot_of(lenses: Seq<Lens>, label: Seq<u8>, upto: int) -> int
    decreases upto,
{
    if upto <= 0 {
        -1
    } else if slot_of(lenses, label, upto - 1) >= 0 {
        slot_of(lenses, label, upto - 1)
    } else if lenses[upto - 1].0 == label {
        upto - 1
    } else {
        -1
    }
}

/// `lenses` without those labelled `label`.
pub open spec fn unlabelled(lenses: Seq<Lens>, label: Seq<u8>) -> Seq<Lens>
    decreases lenses.len(),
{
    if lenses.len() == 0 {
        Seq::empty()
    } else if lenses.last().0 == label {
        unlabelled(lenses.drop_last(), label)
    } else {
        unlabelled(lenses.drop_last(), label).push(lenses.last())
    }
}

/// `lenses` with the lens `lens` put in: in place of the first lens of
/// its label, or at the end.
pub open spec fn put_in(lenses: Seq<Lens>, lens: Lens) -> Seq<Lens> {
    let at = slot_of(lenses, lens.0, lenses.len() as int);
    if at >= 0 {
        lenses.update(at, lens)
    } else {
        lenses.push(lens)
    }
}

/// What step `step` makes of the boxes: `label=n` puts a lens of focal
/// length `n` into the box of its label, and any other step takes the
/// lenses labelled by all but its last byte out of the box of that label.
/// Nothing for an empty step or a focal length that is no number up to
/// [`MAX_FOCAL`].
pub open spec fn after_step(boxes: Seq<Seq<Lens>>, step: Seq<u8>) -> Option<Seq<Seq<Lens>>> {
    match split_once_of(step, equals()) {
        Some((label, length)) => match unsigned_text(length) {
            Some(n) => if n <= MAX_FOCAL {
                Some(boxes.update(hash_of(label), put_in(boxes[hash_of(label)], (label, n as u64))))
            } else {
                None
            },
            None => None,
        },
        None => if step.len() == 0 {
            None
        } else {
            let label = step.drop_last();
            Some(boxes.update(hash_of(label), unlabelled(boxes[hash_of(label)], label)))
        },
    }
}

/// What the first `upto` of `steps` make of 256 empty boxes.
pub open spec fn after_steps(steps: Seq<Seq<u8>>, upto: int) -> Option<Seq<Seq<Lens>>>
    decreases upto,
{
    if upto <= 0 {
        Some(Seq::new(256, |b: int| Seq::<Lens>::empty()))
    } else {
        match after_steps(steps, upto - 1) {
            Some(boxes) => after_step(boxes, steps[upto - 1]),
            None => None,
        }
    }
}

/// The power of the first `upto` lenses of box `b`: for each, one more
/// than `b` times one more than its slot times its focal length.
pub open spec fn box_power(lenses: Seq<Lens>, b: int, upto: int) -> int
    decreases upto,
{
    if upto <= 0 {
        0
    } else {
        box_power(lenses, b, upto - 1) + (1 + b) * upto * lenses[upto - 1].1
    }
}

/// The power of the first `upto` of `boxes`.
pub open spec fn power(boxes: Seq<Seq<Lens>>, upto: int) -> int
    decreases upto,
{
    if upto <= 0 {
        0
    } else {
        power(boxes, upto - 1) + box_power(boxes[upto - 1], upto - 1, boxes[upto - 1].len() as int)
    }
}

/// The hash of `input`.
pub fn hash(input: &[u8]) -> (r: usize)
    ensures
        r == hash_of(input@),
        r < 256,
{
    let mut acc: usize = 0;
    let mut i: usize = 0;
    assert(input@.subrange(0, 0) =~= Seq::<u8>::empty());
    while i < input.len()
        invariant
            i <= input@.len(),
            acc == hash_of(input@.subrange(0, i as int)),
            acc < 256,
        decreases input@.len() - i,
    {
        proof {
            let longer = input@.subrange(0, i + 1);
            assert(longer.drop_last() =~= input@.subrange(0, i as int));
            assert(longer.last() == input@[i as int]);
        }
        acc = ((acc + input[i] as usize) * 17) % 256;
        i += 1;
    }
    assert(input@.subrange(0, input@.len() as int) =~= input@);
    acc
}

/// `bytes` without the blanks at its end.
pub fn trim_end(bytes: &[u8]) -> (r: Vec<u8>)
    ensures
        r@ == trimmed(bytes@),
{
    let mut n = bytes.len();
    assert(bytes@.subrange(0, n as int) =~= bytes@);
    while n > 0 && crate::text::blank(bytes[n - 1])
        invariant
            n <= bytes@.len(),
            trimmed(bytes@) == trimmed(bytes@.subrange(0, n as int)),
        decreases n,
    {
        assert(bytes@.subrange(0, n as int).drop_last() =~= bytes@.subrange(0, n - 1));
        n -= 1;
    }
    let mut out: Vec<u8> = Vec::new();
    let mut i: usize = 0;
    while i < n
        invariant
            i <= n <= bytes@.len(),
            out@ == bytes@.subrange(0, i as int),
        decreases n - i,
    {
        out.push(bytes[i]);
        assert(out@ =~= bytes@.subrange(0, i + 1));
        i += 1;
    }
    out
}

/// The sum of the hashes of the steps that `input` lists.
pub fn part_one(input: &str) -> (r: Option<usize>)
    ensures
        r == if hash_sum(steps_of(input.spec_bytes()), steps_of(input.spec_bytes()).len() as int)
            <= usize::MAX {
            Some(
                hash_sum(
                    steps_of(input.spec_bytes()),
                    steps_of(input.spec_bytes()).len() as int,
                ) as usize,
            )
        } else {
            None
        },
{
    let text = trim_end(input.as_bytes());
    let mark: [u8; 1] = [44];
    assert(mark@ =~= comma());
    let steps = split_by(text.as_slice(), mark.as_slice());
    let ghost model = steps.deep_view();
    let mut total: u128 = 0;
    let mut k: usize = 0;
    while k < steps.len()
        invariant
            k <= steps@.len(),
            model == steps.deep_view(),
            total == hash_sum(model, k as int),
            total <= 255 * k,
        decreases steps@.len() - k,
    {
        assert(model[k as int] =~= steps@[k as int]@);
        total = total + hash(steps[k].as_slice()) as u128;
        k += 1;
    }
    if total > usize::MAX as u128 {
        None
    } else {
        Some(total as usize)
    }
}

/// The model of one box.
pub open spec fn box_view(lenses: &Vec<(Vec<u8>, u64)>) -> Seq<Lens> {
    Seq::new(lenses@.len(), |i: int| (lenses@[i].0@, lenses@[i].1))
}

/// The model of all boxes.
pub open spec fn boxes_view(boxes: &Vec<Vec<(Vec<u8>, u64)>>) -> Seq<Seq<Lens>> {
    Seq::new(boxes@.len(), |b: int| box_view(&boxes@[b]))
}

/// Puts the lens `label`, `focal` into `lenses`.
pub fn insert_lens(lenses: &mut Vec<(Vec<u8>, u64)>, label: Vec<u8>, focal: u64)
    ensures
        box_view(final(lenses)) == put_in(box_view(old(lenses)), (label@, focal)),
{
    let ghost before = box_view(lenses);
    let mut i: usize = 0;
    while i < lenses.len()
        invariant
            i <= lenses@.len(),
            box_view(lenses) == before,
            before == box_view(old(lenses)),
            slot_of(before, label@, i as int) == -1,
        decreases lenses@.len() - i,
    {
        assert(before[i as int].0 == lenses@[i as int].0@);
        if crate::text::lines_equal(&lenses[i].0, &label) {
            assert(slot_of(before, label@, i + 1) == i);
            proof {
                lemma_slot_stays(before, label@, i + 1, before.len() as int);
            }
            lenses.set(i, (label, focal));
            assert(box_view(lenses) =~= before.update(i as int, (label@, focal)));
            return ;
        }
        i += 1;
    }
    lenses.push((label, focal));
    assert(box_view(lenses) =~= before.push((label@, focal)));
}

/// Once the first lens of a label is found, it stays the first.
proof fn lemma_slot_stays(lenses: Seq<Lens>, label: Seq<u8>, a: int, b: int)
    requires
        slot_of(lenses, label, a) >= 0,
        a <= b,
    ensures
        slot_of(lenses, label, b) == slot_of(lenses, label, a),
    decreases b - a,
{
    if a < b {
        lemma_slot_stays(lenses, label, a, b - 1);
    }
}

/// Takes the lenses labelled `label` out of `lenses`.
pub fn remove_lens(lenses: &Vec<(Vec<u8>, u64)>, label: &Vec<u8>) -> (r: Vec<(Vec<u8>, u64)>)
    ensures
        box_view(&r) == unlabelled(box_view(lenses), label@),
{
    let ghost before = box_view(lenses);
    let mut out: Vec<(Vec<u8>, u64)> = Vec::new();
    let mut i: usize = 0;
    assert(before.subrange(0, 0) =~= Seq::<Lens>::empty());
    assert(box_view(&out) =~= Seq::<Lens>::empty());
    while i < lenses.len()
        invariant
            i <= lenses@.len(),
            before == box_view(lenses),
            box_view(&out) == unlabelled(before.subrange(0, i as int), label@),
        decreases lenses@.len() - i,
    {
        let ghost longer = before.subrange(0, i + 1);
        let ghost kept = box_view(&out);
        proof {
            assert(longer.drop_last() =~= before.subrange(0, i as int));
            assert(longer.last() == before[i as int]);
            assert(before[i as int] == (lenses@[i as int].0@, lenses@[i as int].1));
        }
        if !crate::text::lines_equal(&lenses[i].0, label) {
            out.push((crate::text::copy_line(&lenses[i].0), lenses[i].1));
            assert(box_view(&out) =~= kept.push(before[i as int]));
        }
        i += 1;
    }
    assert(before.subrange(0, before.len() as int) =~= before);
    out
}

/// Does what `step` says to `boxes`; `false`, with the boxes unchanged,
/// where the step says nothing that can be done.
pub fn do_step(boxes: &mut Vec<Vec<(Vec<u8>, u64)>>, step: &Vec<u8>) -> (done: bool)
    requires
        old(boxes)@.len() == 256,
    ensures
        final(boxes)@.len() == 256,
        match after_step(boxes_view(old(boxes)), step@) {
            Some(next) => done && boxes_view(final(boxes)) == next,
            None => !done && boxes_view(final(boxes)) == boxes_view(old(boxes)),
        },
{
    let mark: [u8; 1] = [61];
    assert(mark@ =~= equals());
    let ghost before = boxes_view(boxes);
    match split_once(step.as_slice(), mark.as_slice()) {
        Some((label, length)) => {
            let focal = match parse_u64(length.as_slice()) {
                Some(n) => n,
                None => {
                    return false;
                },
            };
            if focal > MAX_FOCAL {
                return false;
            }
            let h = hash(label.as_slice());
            let ghost old_boxes = *boxes;
            let mut lenses: Vec<(Vec<u8>, u64)> = Vec::new();
            let ghost label_seq = label@;
            std::mem::swap(&mut lenses, &mut boxes[h]);
            insert_lens(&mut lenses, label, focal);
            boxes.set(h, lenses);
            proof {
                let want = before.update(h as int, put_in(before[h as int], (label_seq, focal)));
                assert forall|b: int| 0 <= b < 256 implies boxes_view(boxes)[b] == want[b] by {
                    if b != h {
                        assert(boxes@[b] == old_boxes@[b]);
                    }
                }
                assert(boxes_view(boxes) =~= want);
            }
            true
        },
        None => {
            if step.len() == 0 {
                return false;
            }
            let label = crate::day08::cut(step, 0, step.len() - 1);
            assert(label@ =~= step@.drop_last());
            let h = hash(label.as_slice());
            let ghost old_boxes = *boxes;
            let kept = remove_lens(&boxes[h], &label);
            boxes.set(h, kept);
            proof {
                let want = before.update(h as int, unlabelled(before[h as int], label@));
                assert forall|b: int| 0 <= b < 256 implies boxes_view(boxes)[b] == want[b] by {
                    if b != h {
                        assert(boxes@[b] == old_boxes@[b]);
                    }
                }
                assert(boxes_view(boxes) =~= want);
            }
            true
        },
    }
}

/// The power of a box, or `None` where it exceeds 64 bits.
pub fn weigh_box(lenses: &Vec<(Vec<u8>, u64)>, b: usize) -> (r: Option<u64>)
    requires
        b < 256,
    ensures
        match r {
            Some(v) => v == box_power(box_view(lenses), b as int, lenses@.len() as int),
            None => box_power(box_view(lenses), b as int, lenses@.len() as int) > u64::MAX,
        },
{
    let ghost model = box_view(lenses);
    let mut total: u64 = 0;
    let mut spilled = false;
    let mut i: usize = 0;
    while i < lenses.len()
        invariant
            i <= lenses@.len(),
            b < 256,
            model == box_view(lenses),
            !spilled ==> total == box_power(model, b as int, i as int),
            spilled ==> box_power(model, b as int, i as int) > u64::MAX,
        decreases lenses@.len() - i,
    {
        let focal = lenses[i].1;
        assert(model[i as int].1 == focal);
        let slot = (i as u128) + 1;
        assert(0 <= (1 + b) * slot * focal) by (nonlinear_arith)
            requires
                0 <= b,
                0 <= slot,
                0 <= focal,
        ;
        assert((1 + b) * slot <= 256 * 0x1_0000_0000_0000_0000) by (nonlinear_arith)
            requires
                0 <= b < 256,
                0 <= slot <= 0x1_0000_0000_0000_0000,
        ;
        let unit: u128 = ((1 + b) as u128) * slot;
        proof {
            lemma_box_power_sign(model, b as int, i as int);
            assert((1 + b) * (i + 1) * focal == unit * focal);
        }
        if !spilled {
            match unit.checked_mul(focal as u128) {
                Some(term) => {
                    if term > u64::MAX as u128 - total as u128 {
                        spilled = true;
                    } else {
                        total = (total as u128 + term) as u64;
                    }
                },
                None => {
                    spilled = true;
                },
            }
        }
        i += 1;
    }
    if spilled {
        None
    } else {
        Some(total)
    }
}

/// No box has a negative power.
proof fn lemma_box_power_sign(lenses: Seq<Lens>, b: int, upto: int)
    requires
        0 <= b,
    ensures
        box_power(lenses, b, upto) >= 0,
    decreases upto,
{
    if upto > 0 {
        lemma_box_power_sign(lenses, b, upto - 1);
        assert(0 <= (1 + b) * upto * lenses[upto - 1].1) by (nonlinear_arith)
            requires
                0 <= b,
                0 < upto,
                0 <= lenses[upto - 1].1,
        ;
    }
}

/// What the sequence written in `text` comes to: the power of the boxes
/// after all its steps. Nothing where a step cannot be done or the power
/// exceeds 64 bits.
pub open spec fn focusing(text: Seq<u8>) -> Option<u64> {
    let steps = steps_of(text);
    match after_steps(steps, steps.len() as int) {
        Some(boxes) => if power(boxes, 256) <= u64::MAX {
            Some(power(boxes, 256) as u64)
        } else {
            None
        },
        None => None,
    }
}

/// The focusing power of the lenses after the steps that `input` lists.
pub fn part_two(input: &str) -> (r: Option<u64>)
    ensures
        r == focusing(input.spec_bytes()),
{
    let text = trim_end(input.as_bytes());
    let mark: [u8; 1] = [44];
    assert(mark@ =~= comma());
    let steps = split_by(text.as_slice(), mark.as_slice());
    let ghost model = steps.deep_view();
    let mut boxes: Vec<Vec<(Vec<u8>, u64)>> = Vec::new();
    let mut b: usize = 0;
    while b < 256
        invariant
            b <= 256,
            boxes@.len() == b,
            forall|j: int| 0 <= j < b ==> (#[trigger] boxes@[j])@.len() == 0,
        decreases 256 - b,
    {
        boxes.push(Vec::new());
        b += 1;
    }
    assert(boxes_view(&boxes) =~= Seq::new(256, |j: int| Seq::<Lens>::empty())) by {
        assert forall|j: int| 0 <= j < 256 implies boxes_view(&boxes)[j] == Seq::<Lens>::empty() by {
            assert(boxes@[j]@.len() == 0);
            assert(box_view(&boxes@[j]) =~= Seq::<Lens>::empty());
        }
    }
    let mut k: usize = 0;
    while k < steps.len()
        invariant
            k <= steps@.len(),
            model == steps.deep_view(),
            model == steps_of(input.spec_bytes()),
            boxes@.len() == 256,
            after_steps(model, k as int) == Some(boxes_view(&boxes)),
        decreases steps@.len() - k,
    {
        assert(model[k as int] =~= steps@[k as int]@);
        if !do_step(&mut boxes, &steps[k]) {
            proof {
                assert(after_steps(model, k + 1) is None);
                lemma_steps_lost(model, k + 1, model.len() as int);
            }
            return None;
        }
        k += 1;
    }
    let ghost all = boxes_view(&boxes);
    let mut total: u64 = 0;
    let mut spilled = false;
    let mut b: usize = 0;
    while b < 256
        invariant
            b <= 256,
            boxes@.len() == 256,
            all == boxes_view(&boxes),
            after_steps(model, model.len() as int) == Some(all),
            model == steps_of(input.spec_bytes()),
            !spilled ==> total == power(all, b as int),
            spilled ==> power(all, b as int) > u64::MAX,
        decreases 256 - b,
    {
        proof {
            lemma_box_power_sign(all[b as int], b as int, all[b as int].len() as int);
        }
        let here = weigh_box(&boxes[b], b);
        if !spilled {
            match here {
                Some(v) => match total.checked_add(v) {
                    Some(t) => {
                        total = t;
                    },
                    None => {
                        spilled = true;
                    },
                },
                None => {
                    spilled = true;
                },
            }
        }
        b += 1;
    }
    if spilled {
        None
    } else {
        Some(total)
    }
}

/// Once a step cannot be done the boxes are lost.
pub proof fn lemma_steps_lost(steps: Seq<Seq<u8>>, a: int, b: int)
    requires
        after_steps(steps, a) is None,
        a <= b,
    ensures
        after_steps(steps, b) is None,
    decreases b - a,
{
    if a < b {
        lemma_steps_lost(steps, a, b - 1);
    }
}

} // verus!
