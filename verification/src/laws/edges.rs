//! Where the success zone is.

use crate::binary32::{at_most, integer, lemma_nearest, precision, sum_of, unit_exponent};
use crate::bounds::lemma_sum_exact;
use crate::order::{lemma_integer_exact, lemma_units_zero};
use crate::rounding::lemma_encode_monotone;
use crate::scan::{is_first_longest_run, is_run, longest_run, middle_of, white_edges};
use vstd::arithmetic::power2::{lemma_pow2_pos, pow2};
use vstd::prelude::*;

verus! {

/// The degrees from `start` to before `end`, five at least and a full turn at
/// most, are all set; and unless they are the whole circle, the degrees on
/// both sides of them are not.
pub open spec fn is_zone(mask: Seq<bool>, start: int, end: int) -> bool {
    &&& 0 <= start < 360
    &&& start + 5 <= end <= start + 360
    &&& forall|i: int| start <= i < end ==> mask[#[trigger] (i % 360)]
    &&& end < start + 360 ==> !mask[(start - 1) % 360] && !mask[end % 360]
}

/// Some run is the first longest one.
proof fn lemma_longest_run_exists(mask: Seq<bool>, start: int, length: int)
    requires
        is_run(mask, start, length),
    ensures
        exists|run: (int, int)| is_first_longest_run(mask, run.0, run.1),
    decreases 720 - length, start,
{
    if is_first_longest_run(mask, start, length) {
        let run = (start, length);
        assert(is_first_longest_run(mask, run.0, run.1));
    } else {
        let (s, n) = choose|s: int, n: int| #[trigger]
            is_run(mask, s, n) && !(n < length || (n == length && start <= s));
        lemma_longest_run_exists(mask, s, n);
    }
}

pub(crate) proof fn lemma_longest(mask: Seq<bool>)
    ensures
        is_first_longest_run(mask, longest_run(mask).0, longest_run(mask).1),
{
    assert(is_run(mask, 0, 0));
    lemma_longest_run_exists(mask, 0, 0);
}

/// A run as long as the circle sets all of it.
proof fn lemma_full_circle(mask: Seq<bool>, start: int, length: int)
    requires
        is_run(mask, start, length),
        length >= 360,
    ensures
        is_run(mask, 0, 720),
{
    assert forall|i: int| 0 <= i < 720 implies mask[#[trigger] (i % 360)] by {
        let shift = (i - start) % 360;
        let at = start + shift;
        assert(at % 360 == i % 360);
        assert(mask[at % 360]);
    }
}

/// The longest run is a zone, if it is long enough.
pub(crate) proof fn lemma_run_is_zone(mask: Seq<bool>, start: int, length: int)
    requires
        is_first_longest_run(mask, start, length),
        length >= 5,
    ensures
        is_zone(mask, start, start + if length < 360 {
            length
        } else {
            360
        }),
        length >= 360 ==> start == 0 && length == 720,
{
    if start >= 360 {
        assert forall|i: int| start - 360 <= i < start - 360 + length implies mask[#[trigger] (i
            % 360)] by {
            assert((i + 360) % 360 == i % 360);
            assert(mask[(i + 360) % 360]);
        }
        assert(is_run(mask, start - 360, length));
    }
    if length >= 360 {
        lemma_full_circle(mask, start, length);
        assert(is_run(mask, 0, 720));
    } else {
        if mask[(start + length) % 360] {
            assert forall|i: int| start <= i < start + length + 1 implies mask[#[trigger] (i
                % 360)] by {}
            assert(is_run(mask, start, length + 1));
        }
        if mask[(start - 1) % 360] {
            let first = if start == 0 {
                359
            } else {
                start - 1
            };
            assert forall|i: int| first <= i < first + length + 1 implies mask[#[trigger] (i
                % 360)] by {
                if i > first {
                    let same = if start == 0 {
                        i - 360
                    } else {
                        i
                    };
                    assert(same % 360 == i % 360);
                    assert(mask[same % 360]);
                }
            }
            assert(is_run(mask, first, length + 1));
        }
    }
}

/// The edges enclose a zone; without edges no five degrees in a row are set.
pub proof fn lemma_edges(mask: Seq<bool>)
    ensures
        white_edges(mask) matches Some((start, end)) ==> exists|s: int, e: int| #[trigger]
            is_zone(mask, s, e) && start == integer(s) && end == integer(e),
        white_edges(mask) is None ==> forall|s: int| !#[trigger] is_run(mask, s, 5),
{
    lemma_longest(mask);
    let (start, length) = longest_run(mask);
    if length >= 5 {
        lemma_run_is_zone(mask, start, length);
        let end = start + if length < 360 {
            length
        } else {
            360
        };
        assert(is_zone(mask, start, end));
    }
}

/// The target is between the edges.
pub proof fn lemma_target_between_edges(mask: Seq<bool>)
    ensures
        white_edges(mask) matches Some((start, end)) ==> {
            &&& middle_of(white_edges(mask)) matches Some(target)
            &&& at_most(start, target)
            &&& at_most(target, end)
        },
{
    if let Some((start, end)) = white_edges(mask) {
        lemma_edges(mask);
        let (s, e) = choose|s: int, e: int| #[trigger]
            is_zone(mask, s, e) && start == integer(s) && end == integer(e);
        let unit = pow2(unit_exponent());
        lemma_pow2_pos(unit_exponent());
        lemma_integer_exact(s as nat);
        lemma_integer_exact(e as nat);
        lemma_integer_exact(2);
        let total = sum_of(start, end);
        lemma_sum_exact(s as nat, e as nat);
        let two = integer(2);
        lemma_units_zero(two);
        assert(2 * unit > 0);
        let num = total.units() * unit;
        assert(s * unit * two.units() <= num * 1 && num * 1 <= e * unit * two.units())
            by (nonlinear_arith)
            requires
                num == total.units() * unit,
                total.units() == (s + e) * unit,
                two.units() == 2 * unit,
                0 <= s <= e,
                unit > 0,
        ;
        lemma_encode_monotone(precision(), (s * unit) as nat, 1, num, two.units());
        lemma_encode_monotone(precision(), num, two.units(), (e * unit) as nat, 1);
        lemma_nearest(false, (s * unit) as nat, 1);
        lemma_nearest(false, (e * unit) as nat, 1);
        lemma_nearest(false, num, two.units());
    }
}

} // verus!
