//! The names of the files that hold tables.
use vstd::prelude::*;
use vstd::string::StringExecFns;

verus! {

/// The number of characters of an identifier in a file name.
pub const ID_LENGTH: usize = 36;

/// The name of the file of a table of the first level with the identifier
/// `id`.
pub open spec fn level0_name(id: Seq<char>) -> Seq<char> {
    "L0_"@ + id + ".sst"@
}

/// `name` is the name of the file of a table of the first level.
pub open spec fn is_level0_name(name: Seq<char>) -> bool {
    exists|id: Seq<char>| id.len() == ID_LENGTH && name == #[trigger] level0_name(id)
}

/// `uuid::Uuid::new_v4`, printed: a random identifier in the hyphenated form
/// of 36 characters. Which identifier comes is open; two calls may give two.
#[verifier::external_body]
fn random_id() -> (id: String)
    ensures
        id@.len() == ID_LENGTH,
{
    uuid::Uuid::new_v4().to_string()
}

/// The name of the file of a table of the first level with the identifier
/// `id`.
pub fn level0_file_name(id: &str) -> (name: String)
    ensures
        name@ == level0_name(id@),
{
    let mut name = String::from_str("L0_");
    name.append(id);
    name.append(".sst");
    name
}

/// A name for the file of a new table of the first level, with an identifier
/// drawn at random.
pub fn fresh_level0_file_name() -> (name: String)
    ensures
        is_level0_name(name@),
{
    let id = random_id();
    let name = level0_file_name(id.as_str());
    assert(name@ == level0_name(id@));
    name
}

} // verus!
