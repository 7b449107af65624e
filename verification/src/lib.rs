//! Attribution of per-symbol binary-size records onto a tree shaped like the
//! dependency graph that produced the binary, flattened into a report that a
//! bundler-analyzer visualization can read.

pub mod error;
pub mod packages;
pub mod tool;
pub mod tree;

use vstd::prelude::*;
use error::BloatyError;
use packages::{DepGraph, wf_graph, resolver_ok};
use tree::{Metafile, Tree, tree_of_csv, metafile_of, csv_cells, grid_records, total_sum_vm, total_sum_fs};

verus! {

/// Largest report text a known downstream consumer can hold as one string.
pub const MAX_JSON_LENGTH: usize = 0x1fffffe8;

/// Is a serialized report too large for the downstream consumer?
pub fn exceeds_consumer_limit(len: usize) -> (r: bool)
    ensures
        r == (len > MAX_JSON_LENGTH),
{
    len > MAX_JSON_LENGTH
}

/// Convert a per-symbol size report into the flattened attribution report:
/// parse the records, resolve each owner's dependency chain in `graph`,
/// accumulate every record's path into the tree, and flatten it to `deep`
/// levels under the output name.
pub fn from_csv(csv: &str, name: &str, graph: Option<&DepGraph>, deep: usize, no_sections: bool)
    -> (r: Result<Metafile, BloatyError>)
    requires
        graph matches Some(g) ==> wf_graph(*g),
    ensures
        match r {
            Result::Ok(m) => exists|t: Tree|
                #[trigger] tree_of_csv(t, csv@, no_sections) && metafile_of(m, t, name@, deep),
            Result::Err(e) => match e {
                BloatyError::CsvParse(_) => csv_cells(csv@) is None || (csv_cells(csv@)
                    matches Some(grid) && grid_records(grid.0, grid.1) is None),
                BloatyError::SizeOverflow => csv_cells(csv@) matches Some(grid) && grid_records(
                    grid.0, grid.1) matches Some(rows) && exists|
                    pm: Map<Seq<char>, Seq<Seq<char>>>,
                |
                    #[trigger] resolver_ok(pm, rows) && (total_sum_vm(rows, pm, no_sections,
                    Seq::empty()) > u64::MAX || total_sum_fs(rows, pm, no_sections,
                    Seq::empty()) > u64::MAX),
            },
        },
{
    let t = match Tree::new(csv, graph, no_sections) {
        Result::Ok(t) => t,
        Result::Err(e) => {
            return Result::Err(e);
        },
    };
    let m = t.to_metafile(name, deep);
    proof {
        assert(tree_of_csv(t, csv@, no_sections) && metafile_of(m, t, name@, deep));
    }
    Result::Ok(m)
}

} // verus!
