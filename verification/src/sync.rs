//! Synchronization support: the commit message recorded when the notebook is
//! synced. Driving the version-control client itself is the binary's job.

use vstd::prelude::*;

use crate::date::{push_two_digits, two_digits, NoteDate};

verus! {

/// The message of a sync commit: `Sync YY-MM-DD`.
pub open spec fn commit_message_spec(d: NoteDate) -> Seq<u8>
    recommends
        d.wf(),
{
    seq!['S' as u8, 'y' as u8, 'n' as u8, 'c' as u8, ' ' as u8] + two_digits(d.year as int % 100)
        + seq!['-' as u8] + two_digits(d.month as int) + seq!['-' as u8] + two_digits(d.day as int)
}

/// Builds the message of a sync commit from the current date.
pub fn build_commit_message(now: &NoteDate) -> (r: Vec<u8>)
    requires
        now.wf(),
    ensures
        r@ == commit_message_spec(*now),
{
    let mut out: Vec<u8> = vec!['S' as u8, 'y' as u8, 'n' as u8, 'c' as u8, ' ' as u8];
    push_two_digits(&mut out, (now.year % 100) as u8);
    out.push('-' as u8);
    push_two_digits(&mut out, now.month);
    out.push('-' as u8);
    push_two_digits(&mut out, now.day);
    proof {
        assert(out@ =~= commit_message_spec(*now));
    }
    out
}

} // verus!
