//! The progress of a download.

use vstd::prelude::*;

use crate::numbers::{parse_number, parsed};

verus! {

/// The width of a progress bar.
pub const WIDTH: usize = 30;

/// How much of a bar is filled once `done` of `total` is.
pub open spec fn filled(done: nat, total: nat) -> nat {
    WIDTH as nat * (if done < total {
        done
    } else {
        total
    }) / total
}

/// A progress bar, filled as far as `done` of `total` says.
pub open spec fn bar_of(done: nat, total: nat) -> Seq<char> {
    Seq::new(
        WIDTH as nat,
        |i: int|
            if i < filled(done, total) {
                '#'
            } else {
                '-'
            },
    )
}

/// A progress bar, filled as far as `done` of `total` says.
pub fn progress_bar(done: u64, total: u64) -> (r: String)
    requires
        total > 0,
    ensures
        r@ == bar_of(done as nat, total as nat),
{
    let part = if done < total {
        done
    } else {
        total
    };
    let count = (WIDTH as u128 * part as u128) / (total as u128);
    assert(count == filled(done as nat, total as nat));
    let mut bar = String::new();
    let mut i: usize = 0;
    while i < WIDTH
        invariant
            i <= WIDTH,
            count == filled(done as nat, total as nat),
            bar@ == bar_of(done as nat, total as nat).take(i as int),
        decreases WIDTH - i,
    {
        let c = if (i as u128) < count {
            '#'
        } else {
            '-'
        };
        bar.push(c);
        assert(bar@ =~= bar_of(done as nat, total as nat).take(i + 1));
        i += 1;
    }
    assert(bar_of(done as nat, total as nat).take(i as int) =~= bar_of(done as nat, total as nat));
    bar
}

/// Whether progress is shown: on a terminal, of a download whose length is known and
/// not zero.
pub fn shows_progress(total: Option<u64>, terminal: bool) -> (r: bool)
    ensures
        r == (terminal && total is Some && total != Some(0u64)),
{
    match total {
        Some(n) => terminal && n > 0,
        None => false,
    }
}

/// The length that the header of a response declares, if it is one.
pub fn content_length(header: &str) -> (r: Option<u64>)
    ensures
        match r {
            Some(n) => parsed(header@, u64::MAX as nat) == Some(n as nat),
            None => parsed(header@, u64::MAX as nat) is None,
        },
{
    parse_number(header, u64::MAX)
}

/// A bar is full exactly once everything is done.
pub proof fn bar_is_full_when_done(done: nat, total: nat)
    requires
        total > 0,
    ensures
        filled(done, total) <= WIDTH,
        done >= total <==> filled(done, total) == WIDTH,
{
    let part = if done < total {
        done
    } else {
        total
    };
    assert(WIDTH as nat * part / total <= WIDTH) by (nonlinear_arith)
        requires
            part <= total,
            total > 0,
    ;
    assert(WIDTH as nat * total / total == WIDTH) by (nonlinear_arith)
        requires
            total > 0,
    ;
    if done < total {
        assert(WIDTH as nat * part / total < WIDTH) by (nonlinear_arith)
            requires
                part < total,
                total > 0,
        ;
    }
}

/// A bar shows as much as is done, and no more than that: as many of its places are filled
/// as whole thirtieths of the total are done, and they come first.
pub proof fn bars_show_what_is_done(done: nat, total: nat, i: int)
    requires
        total > 0,
        0 <= i < 30,
    ensures
        bar_of(done, total).len() == 30,
        (i + 1) * total <= 30 * done ==> bar_of(done, total)[i] == '#',
        (i + 1) * total > 30 * done ==> bar_of(done, total)[i] == '-',
{
    let part = if done < total {
        done
    } else {
        total
    };
    assert((i + 1) * total <= 30 * part ==> i < (30 * part) / total) by (nonlinear_arith)
        requires
            total > 0,
            0 <= i,
    ;
    assert((i + 1) * total > 30 * part ==> i >= (30 * part) / total) by (nonlinear_arith)
        requires
            total > 0,
            0 <= i,
            part >= 0,
    ;
    assert((i + 1) * total <= 30 * total) by (nonlinear_arith)
        requires
            i < 30,
            total > 0,
    ;
}

} // verus!
