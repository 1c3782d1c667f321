use vstd::prelude::*;

verus! {

use crate::Error;

/// What str::to_lowercase returns for a string; the result is a function of
/// the input characters alone.
pub uninterp spec fn lower_of(s: Seq<char>) -> Seq<char>;

/// Relies on str::to_lowercase: folds the string to lower case; the result
/// depends on the input characters alone.
#[verifier::external_body]
fn lowercase(s: &str) -> (r: String)
    ensures
        r@ == lower_of(s@),
{
    s.to_lowercase()
}

/// The database name of a CREATE DATABASE statement: the first identifier of
/// its object name. An empty object name is a syntax error.
pub fn database_name(name_idents: &Vec<String>) -> (r: Result<String, Error>)
    ensures
        name_idents@.len() == 0 ==> r == Err::<String, Error>(Error::SyntaxException),
        name_idents@.len() > 0 ==> (r matches Ok(s) && s@ == name_idents@[0]@),
{
    if name_idents.len() == 0 {
        return Err(Error::SyntaxException);
    }
    Ok(name_idents[0].clone())
}

/// The statement's options, with each option name folded to lower case and
/// each value kept as written.
pub fn database_options(options: &Vec<(String, String)>) -> (r: Vec<(String, String)>)
    ensures
        r@.len() == options@.len(),
        forall|i: int|
            0 <= i < r@.len() ==> (#[trigger] r@[i]).0@ == lower_of(options@[i].0@) && r@[i].1@
                == options@[i].1@,
{
    let mut out: Vec<(String, String)> = Vec::new();
    let mut k: usize = 0;
    while k < options.len()
        invariant
            k <= options@.len(),
            out@.len() == k,
            forall|i: int|
                0 <= i < k ==> (#[trigger] out@[i]).0@ == lower_of(options@[i].0@) && out@[i].1@
                    == options@[i].1@,
        decreases options@.len() - k,
    {
        let pair = &options[k];
        let key = lowercase(pair.0.as_str());
        let value = pair.1.clone();
        out.push((key, value));
        k = k + 1;
    }
    out
}

} // verus!
