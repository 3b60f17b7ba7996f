//! What a run is configured with, and what it hands back for writing or for
//! review.
use vstd::prelude::*;

use crate::address::valid_prefix_len;
use crate::zone::{PlannedEdit, Reconciliation, ZoneError};

verus! {

/// The hosts to keep in step, the prefix length of the delegated network and
/// the zone file that holds their records.
#[derive(Clone, Debug, PartialEq, Eq)]
pub struct Config {
    pub hosts: Vec<String>,
    pub prefix_size: u8,
    pub record_db_path: String,
}

impl Config {
    /// The prefix length is one the segment-wise rules can work with.
    pub open spec fn well_formed(&self) -> bool {
        valid_prefix_len(self.prefix_size)
    }
}

/// Takes the fields of a configuration, refusing a prefix length that is
/// over 128 or not a multiple of 16.
pub fn read_config(hosts: Vec<String>, prefix_size: u8, record_db_path: String) -> (r: Result<
    Config,
    ZoneError,
>)
    ensures
        valid_prefix_len(prefix_size) ==> r == Ok::<Config, ZoneError>(
            Config { hosts, prefix_size, record_db_path },
        ),
        !valid_prefix_len(prefix_size) ==> r == Err::<Config, ZoneError>(
            ZoneError::InvalidPrefixLength { prefix_len: prefix_size },
        ),
        r matches Ok(c) ==> c.well_formed(),
{
    if prefix_size > 128 || prefix_size % 16 != 0 {
        return Err(ZoneError::InvalidPrefixLength { prefix_len: prefix_size });
    }
    Ok(Config { hosts, prefix_size, record_db_path })
}

/// The text to write back after a run: the new zone text when the run
/// changed a line and is no dry run; nothing otherwise.
pub fn write_config(reconciliation: &Reconciliation, dry_run: bool) -> (r: Option<String>)
    ensures
        r is Some <==> (!dry_run && reconciliation.plan@.len() > 0),
        r matches Some(t) ==> t@ == reconciliation.new_text@,
{
    if dry_run || reconciliation.plan.len() == 0 {
        None
    } else {
        Some(reconciliation.new_text.clone())
    }
}

/// The old and the new text of each planned line, in the plan's order.
pub fn dry_run_report(plan: &Vec<PlannedEdit>) -> (r: Vec<(String, String)>)
    ensures
        r@.len() == plan@.len(),
        forall|k: int|
            0 <= k < plan@.len() ==> (#[trigger] r@[k]).0@ == plan@[k].old_line@ && r@[k].1@
                == plan@[k].new_line@,
{
    let mut r: Vec<(String, String)> = Vec::new();
    let mut k: usize = 0;
    while k < plan.len()
        invariant
            k <= plan@.len(),
            r@.len() == k,
            forall|i: int|
                0 <= i < k ==> (#[trigger] r@[i]).0@ == plan@[i].old_line@ && r@[i].1@
                    == plan@[i].new_line@,
        decreases plan@.len() - k,
    {
        let edit = &plan[k];
        r.push((edit.old_line.clone(), edit.new_line.clone()));
        k = k + 1;
    }
    r
}

} // verus!
