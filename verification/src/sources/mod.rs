//! Building a school from what its documents hold.
pub mod html;
pub mod json;

use crate::school::School;
use crate::school::model::SchoolModel;
use vstd::prelude::*;

verus! {

/// Why a school could not be built from a document.
#[derive(Debug, Clone, Copy, PartialEq, Eq, Structural)]
pub enum LoadError {
    /// The document is too large to be decoded, or a table of the school is full.
    TooLarge,
    /// A selector for the elements of the document could not be read.
    Selector,
    /// A row of a timetable does not begin with a cell that holds text.
    MissingTime { table: usize, row: usize },
    /// The first cell of a row of a timetable does not hold a time.
    BadTime { table: usize, row: usize },
}

/// The school after the first `n` of the laboratories `labs` were registered.
pub open spec fn with_labs(m: SchoolModel, labs: Seq<Seq<char>>, n: nat) -> Result<SchoolModel, LoadError>
    decreases n,
{
    if n == 0 {
        Ok(m)
    } else {
        match with_labs(m, labs, (n - 1) as nat) {
            Ok(before) => if before.labs.full() {
                Err(LoadError::TooLarge)
            } else {
                Ok(SchoolModel { labs: before.labs.with(labs[n - 1]), ..before })
            },
            Err(e) => Err(e),
        }
    }
}

/// Once a laboratory cannot be registered, none of the later ones can.
pub proof fn lemma_labs_fail(m: SchoolModel, labs: Seq<Seq<char>>, i: nat, n: nat)
    requires
        i <= n,
        with_labs(m, labs, i) is Err,
    ensures
        with_labs(m, labs, n) == with_labs(m, labs, i),
    decreases n - i,
{
    if i < n {
        lemma_labs_fail(m, labs, i, (n - 1) as nat);
    }
}

/// Registers the laboratories called `labs` in the school.
pub fn register_labs(school: &mut School, labs: Vec<String>) -> (r: Result<(), LoadError>)
    requires
        old(school)@.wf(),
    ensures
        match r {
            Ok(_) => with_labs(old(school)@, labs.deep_view(), labs@.len()) == Ok::<SchoolModel, LoadError>(
                final(school)@,
            ) && final(school)@.wf(),
            Err(e) => with_labs(old(school)@, labs.deep_view(), labs@.len()) == Err::<
                SchoolModel,
                LoadError,
            >(e),
        },
{
    let ghost rooms = labs.deep_view();
    let ghost read = school@;
    let count = labs.len();
    let mut i: usize = 0;
    for lab in it: labs
        invariant
            it.seq() == labs@,
            rooms == labs.deep_view(),
            count == labs@.len(),
            i == it.index(),
            read == old(school)@,
            school@.wf(),
            with_labs(read, rooms, it.index() as nat) == Ok::<SchoolModel, LoadError>(school@),
    {
        proof {
            assert(rooms[i as int] == lab@);
        }
        if school.labs.is_full() {
            proof {
                assert(with_labs(read, rooms, (i + 1) as nat) == Err::<SchoolModel, LoadError>(
                    LoadError::TooLarge,
                ));
                lemma_labs_fail(read, rooms, (i + 1) as nat, count as nat);
            }
            return Err(LoadError::TooLarge);
        }
        school.lab_id(lab);
        i += 1;
    }
    Ok(())
}

} // verus!
