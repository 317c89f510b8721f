//! The visible-asset query: its fixed SQL text, the resumption option, and
//! the location of the backing store beneath a library root.
//!
//! The selected column order is a positional contract with the record
//! mapper and must only change together with it.

use vstd::prelude::*;
use vstd::string::StringExecFns;

verus! {

/// Configuration of one stream call: `after_pk` restricts the stream to
/// rows whose primary key is strictly greater, for resuming by checkpoint.
#[derive(Debug, Clone, Copy)]
pub struct QueryOptions {
    pub after_pk: Option<i64>,
}

/// The text of the visible-asset query. With `after` set it carries one
/// placeholder for the pk lower bound, right before the ordering clause.
pub open spec fn spec_visible_sql(after: bool) -> Seq<char> {
    "SELECT Z_PK, ZUUID, ZKIND, ZUNIFORMTYPEIDENTIFIER, ZKINDSUBTYPE, ZDIRECTORY, ZFILENAME, ZDATECREATED, ZMODIFICATIONDATE, ZADDEDDATE, ZHEIGHT, ZWIDTH FROM ZASSET WHERE ZTRASHEDSTATE = 0 AND ZHIDDEN = 0 AND ZVISIBILITYSTATE = 0"@
        + (if after {
        " AND Z_PK > ?"@
    } else {
        Seq::<char>::empty()
    }) + " ORDER BY Z_PK"@
}

/// The text of the secondary point query: one column, the original
/// filename, keyed by the asset's primary key placeholder.
pub open spec fn spec_extra_sql() -> Seq<char> {
    "SELECT ZORIGINALFILENAME FROM ZADDITIONALASSETATTRIBUTES WHERE ZASSET = ?"@
}

/// Builds the visible-asset query text for the given options: the fixed
/// selection, filter and ascending-pk ordering, with a pk lower-bound
/// placeholder exactly when `after_pk` is set. The caller binds `after_pk`'s
/// value to that placeholder.
pub fn visible_sql(opts: &QueryOptions) -> (r: String)
    ensures
        r@ == spec_visible_sql(opts.after_pk is Some),
{
    let mut s =
        "SELECT Z_PK, ZUUID, ZKIND, ZUNIFORMTYPEIDENTIFIER, ZKINDSUBTYPE, ZDIRECTORY, ZFILENAME, ZDATECREATED, ZMODIFICATIONDATE, ZADDEDDATE, ZHEIGHT, ZWIDTH FROM ZASSET WHERE ZTRASHEDSTATE = 0 AND ZHIDDEN = 0 AND ZVISIBILITYSTATE = 0".to_owned();
    if opts.after_pk.is_some() {
        s.append(" AND Z_PK > ?");
    }
    s.append(" ORDER BY Z_PK");
    proof {
        if !(opts.after_pk is Some) {
            assert(s@ =~= spec_visible_sql(false));
        }
    }
    s
}

/// Builds the secondary point query's text.
pub fn extra_sql() -> (r: &'static str)
    ensures
        r@ == spec_extra_sql(),
{
    "SELECT ZORIGINALFILENAME FROM ZADDITIONALASSETATTRIBUTES WHERE ZASSET = ?"
}

/// Where the backing store lives beneath a library root.
pub open spec fn spec_database_path(root: Seq<char>) -> Seq<char> {
    root + "/database/Photos.sqlite"@
}

/// Resolves the backing store's path: the fixed relative location of the
/// database file beneath the supplied library root.
pub fn database_path(library_root: &str) -> (r: String)
    ensures
        r@ == spec_database_path(library_root@),
{
    let mut s = library_root.to_owned();
    s.append("/database/Photos.sqlite");
    s
}

} // verus!
