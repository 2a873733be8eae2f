//! The values that groups are made by, column by column.

pub mod bytes_view;
pub mod bytes_view_laws;
pub mod primitive;
pub mod primitive_laws;
pub mod view;

use crate::blocked_helpers::layout::{appended, chunks, concat};
use vstd::prelude::*;

verus! {

/// Whether a column has nulls.
#[derive(Debug, Clone, Copy, PartialEq, Eq, Structural)]
pub enum Nulls {
    /// All values are null.
    AllNull,
    /// Some values are null.
    SomeNull,
    /// No value is null.
    NoNull,
}

/// Compares two values as far as nulls decide: two nulls are equal, a null and another value are
/// not. `None` if neither is null.
pub fn nulls_equal_to(lhs_null: bool, rhs_null: bool) -> (equal: Option<bool>)
    ensures
        equal == if lhs_null || rhs_null {
            Some(lhs_null && rhs_null)
        } else {
            None
        },
{
    match (lhs_null, rhs_null) {
        (true, true) => Some(true),
        (false, true) => Some(false),
        (true, false) => Some(false),
        (false, false) => None,
    }
}

/// The values, with nulls in place of those that are not valid, if there can be nulls.
pub open spec fn optional<T>(nullable: bool, values: Seq<T>, valid: Seq<bool>) -> Seq<Option<T>> {
    Seq::new(
        values.len(),
        |j: int|
            if nullable && !valid[j] {
                None
            } else {
                Some(values[j])
            },
    )
}

/// The values of each block, with nulls in place of those that are not valid.
pub open spec fn optional_blocks<T>(
    nullable: bool,
    values: Seq<Seq<T>>,
    valid: Seq<Seq<bool>>,
) -> Seq<Seq<Option<T>>> {
    Seq::new(values.len(), |b: int| optional(nullable, values[b], valid[b]))
}

/// Whether each row of each block is valid.
pub open spec fn validity_in_blocks<T>(rows: Seq<Seq<Option<T>>>) -> Seq<Seq<bool>> {
    Seq::new(rows.len(), |b: int| Seq::new(rows[b].len(), |j: int| rows[b][j] is Some))
}

proof fn lemma_optional_chunks<T>(nullable: bool, values: Seq<T>, valid: Seq<bool>, cap: nat)
    requires
        cap > 0,
        nullable ==> values.len() == valid.len(),
    ensures
        nullable ==> chunks(values, cap).len() == chunks(valid, cap).len(),
        optional_blocks(nullable, chunks(values, cap), chunks(valid, cap)) == chunks(
            optional(nullable, values, valid),
            cap,
        ),
    decreases values.len(),
{
    let all = optional(nullable, values, valid);
    let blocks = optional_blocks(nullable, chunks(values, cap), chunks(valid, cap));
    if values.len() < cap {
        assert(blocks =~= seq![all]) by {
            assert(blocks[0] =~= all);
        }
    } else {
        let k = cap as int;
        let other = if nullable {
            valid.skip(k)
        } else {
            Seq::empty()
        };
        lemma_optional_chunks(nullable, values.skip(k), other, cap);
        let rest = optional_blocks(nullable, chunks(values.skip(k), cap), chunks(other, cap));
        assert(all.take(k) =~= optional(nullable, values.take(k), valid.take(k)));
        assert(all.skip(k) =~= optional(nullable, values.skip(k), other));
        assert(blocks =~= seq![all.take(k)] + rest) by {
            assert forall|b: int| 0 <= b < blocks.len() implies blocks[b] == (seq![all.take(k)]
                + rest)[b] by {
                assert(blocks[b] =~= (seq![all.take(k)] + rest)[b]);
            }
        }
    }
}

/// Values and their validity are added side by side.
pub proof fn lemma_optional_appended<T>(
    nullable: bool,
    fixed: bool,
    cap: nat,
    values: Seq<Seq<T>>,
    valid: Seq<Seq<bool>>,
    more: Seq<T>,
    more_valid: Seq<bool>,
)
    requires
        values.len() > 0,
        fixed ==> cap > 0,
        nullable ==> {
            &&& values.len() == valid.len()
            &&& values.last().len() == valid.last().len()
            &&& more.len() == more_valid.len()
        },
    ensures
        nullable ==> appended(fixed, cap, values, more).len() == appended(
            fixed,
            cap,
            valid,
            more_valid,
        ).len(),
        optional_blocks(
            nullable,
            appended(fixed, cap, values, more),
            appended(fixed, cap, valid, more_valid),
        ) == appended(
            fixed,
            cap,
            optional_blocks(nullable, values, valid),
            optional(nullable, more, more_valid),
        ),
{
    let rows = optional_blocks(nullable, values, valid);
    let more_rows = optional(nullable, more, more_valid);
    let n = values.len() - 1;
    let last = values.last() + more;
    let last_valid = valid.last() + more_valid;
    let after = optional_blocks(
        nullable,
        appended(fixed, cap, values, more),
        appended(fixed, cap, valid, more_valid),
    );
    let expected = appended(fixed, cap, rows, more_rows);
    assert(rows.last() + more_rows =~= optional(nullable, last, last_valid));
    if fixed {
        lemma_optional_chunks(nullable, last, last_valid, cap);
        let tail = optional_blocks(nullable, chunks(last, cap), chunks(last_valid, cap));
        assert forall|b: int| 0 <= b < after.len() implies after[b] == expected[b] by {
            if b < n {
                assert(after[b] =~= rows[b]);
            } else {
                assert(after[b] =~= tail[b - n]);
            }
        }
        assert(after =~= expected);
    } else {
        assert forall|b: int| 0 <= b < after.len() implies after[b] == expected[b] by {
            assert(after[b] =~= expected[b]);
        }
        assert(after =~= expected);
    }
}

/// Blocks with as many items in each have as many in all.
pub proof fn lemma_same_len<T, U>(a: Seq<Seq<T>>, b: Seq<Seq<U>>)
    requires
        a.len() == b.len(),
        forall|i: int| 0 <= i < a.len() ==> (#[trigger] a[i]).len() == b[i].len(),
    ensures
        concat(a).len() == concat(b).len(),
    decreases a.len(),
{
    if a.len() > 0 {
        assert forall|i: int| 0 <= i < a.drop_last().len() implies (
        #[trigger] a.drop_last()[i]).len() == b.drop_last()[i].len() by {
            assert(a[i].len() == b[i].len());
        }
        lemma_same_len(a.drop_last(), b.drop_last());
        assert(a[a.len() - 1].len() == b[a.len() - 1].len());
    }
}

} // verus!
