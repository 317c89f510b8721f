//! The lazy extra-attribute bundle: fetched by one point lookup on first
//! request, memoized in a write-once cell for the record's remaining
//! lifetime, and never fetched again.

use vstd::prelude::*;
use crate::record::ColumnValue;

verus! {

/// The secondary attribute bundle of an asset: its original on-capture
/// filename, prior to any renames.
#[derive(Debug, Clone)]
pub struct PhotoExtra {
    pub original_filename: String,
}

/// Why a point lookup for the extra attributes failed.
#[derive(Debug, Clone, Copy, PartialEq, Eq, Structural)]
pub enum LookupError {
    /// No row of the joined table matches the record's primary key: an
    /// inconsistency in the source library, surfaced rather than defaulted.
    NotFound,
    /// The store failed to run the lookup, or handed back a value of the
    /// wrong shape.
    StoreError,
}

/// A write-once memo cell for a record's extra attributes. It starts empty;
/// the first successful fetch fills it, and it then never changes again. A
/// failed or abandoned fetch leaves it empty, so a later access may try
/// again.
#[derive(Debug)]
pub struct ExtraCell {
    value: Option<PhotoExtra>,
}

impl ExtraCell {
    /// The memoized original filename, if the cell has been filled.
    pub closed spec fn view(&self) -> Option<Seq<char>> {
        match self.value {
            Option::None => Option::None,
            Option::Some(e) => Option::Some(e.original_filename@),
        }
    }

    /// Whether an access at this point must go to the store.
    pub open spec fn spec_needs_fetch(&self) -> bool {
        self@ is None
    }

    /// A fresh cell is empty: nothing has been fetched for the record yet.
    pub fn new() -> (r: Self)
        ensures
            r@ is None,
    {
        ExtraCell { value: None }
    }

    /// Whether the one allowed fetch is still outstanding. Exactly the
    /// accesses that find the cell empty ask the store; every later access
    /// is answered from memory.
    pub fn needs_fetch(&self) -> (r: bool)
        ensures
            r == self.spec_needs_fetch(),
    {
        self.value.is_none()
    }

    /// Reads the cell without touching the store.
    pub fn get(&self) -> (r: Option<&PhotoExtra>)
        ensures
            read_observes(*self, match r {
                Option::None => Option::None,
                Option::Some(e) => Option::Some(e.original_filename@),
            }),
    {
        self.value.as_ref()
    }

    /// Stores the result of the record's single point lookup. Only an empty
    /// cell can be filled: the cell is write-once.
    pub fn fill(&mut self, v: PhotoExtra)
        requires
            old(self)@ is None,
        ensures
            final(self)@ == Option::Some(v.original_filename@),
    {
        self.value = Some(v);
    }
}

/// What a read of the cell can observe: nothing while it is empty, and
/// exactly the stored content once it is filled.
pub open spec fn read_observes(c: ExtraCell, r: Option<Seq<char>>) -> bool {
    if c@ is None {
        r is None
    } else {
        r == c@
    }
}

/// Memoize-once: a filled cell never asks the store again, and every read
/// of it observes the one stored content — so two accesses to the same
/// record's extra attributes perform at most one underlying lookup and
/// return identical content.
pub proof fn lemma_memoize_once(c: ExtraCell, r1: Option<Seq<char>>, r2: Option<Seq<char>>)
    requires
        c@ is Some,
        read_observes(c, r1),
        read_observes(c, r2),
    ensures
        !c.spec_needs_fetch(),
        r1 == c@,
        r1 == r2,
{
}

/// Interprets the point lookup's outcome: the one selected column of the
/// matching row, or the absence of any matching row.
///
/// A missing row is the data inconsistency `NotFound`; a column of the
/// wrong shape is a store failure. Exactly the text-column outcomes
/// succeed.
pub fn interpret_extra_row(row: Option<ColumnValue>) -> (r: Result<PhotoExtra, LookupError>)
    ensures
        row matches Some(c) ==> (if c is Text {
            r matches Ok(e) && e.original_filename@ == c.text_value()
        } else {
            r == Err::<PhotoExtra, LookupError>(LookupError::StoreError)
        }),
        row is None ==> r == Err::<PhotoExtra, LookupError>(LookupError::NotFound),
        r is Ok <==> (row matches Some(c) && c is Text),
{
    match row {
        Some(ColumnValue::Text(s)) => Ok(PhotoExtra { original_filename: s }),
        Some(_) => Err(LookupError::StoreError),
        None => Err(LookupError::NotFound),
    }
}

} // verus!
