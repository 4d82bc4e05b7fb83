//! Reading the direct dependencies of one binary: the list of shared
//! libraries that its dynamic-linking metadata declares it needs.

use vstd::prelude::*;

verus! {

/// The bytes at hand are not a well-formed dynamically linked binary.
#[derive(Debug)]
pub struct ParseError {
    pub detail: String,
}

/// What parsing a binary's dynamic-linking metadata yields: the declared
/// needed-library names in declaration order, or nothing when the bytes are
/// not a well-formed binary. A function of the bytes alone.
pub uninterp spec fn spec_direct_deps(data: Seq<u8>) -> Option<Seq<Seq<char>>>;

/// Relies on goblin::elf::Elf::parse: whether the bytes parse, and the
/// `libraries` list of needed shared objects when they do, are functions of
/// the input bytes alone.
#[verifier::external_body]
fn parse_binary_deps(data: &[u8]) -> (r: Result<Vec<String>, ParseError>)
    ensures
        r matches Ok(v) ==> spec_direct_deps(data@) == Some(v.deep_view()),
        r is Err ==> spec_direct_deps(data@) is None,
{
    match goblin::elf::Elf::parse(data) {
        Ok(elf) => Ok(elf.libraries.iter().map(|l| l.to_string()).collect()),
        Err(e) => Err(ParseError { detail: format!("{}", e) }),
    }
}

/// The shared-library names the given binary directly declares, in
/// declaration order; fails with a parse error exactly when the bytes are
/// not a well-formed dynamically linked binary.
pub fn direct_dependencies(data: &Vec<u8>) -> (r: Result<Vec<String>, ParseError>)
    ensures
        r matches Ok(v) ==> spec_direct_deps(data@) == Some(v.deep_view()),
        r is Err <==> spec_direct_deps(data@) is None,
{
    parse_binary_deps(data.as_slice())
}

} // verus!
