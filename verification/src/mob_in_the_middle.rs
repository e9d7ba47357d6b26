//! The rewriting of Boguscoin addresses in the lines that pass through the
//! proxy.

use vstd::prelude::*;

verus! {

/// The address that takes the place of every Boguscoin address.
pub const TONY_ADDRESS: &'static str = "7YWHMfk9JZe0LM0g1ZauHuiSxhI";

/// A Boguscoin address: a `7` and 25 to 34 more letters, digits or
/// underscores, with a space or the start of the text before it and a space,
/// a line feed or the end of the text behind it.
pub const BOGUSCOIN_ADDRESS: &'static str = r"(?<= |^)7[\d\w]{25,34}(?= |$|\n)";

#[verifier::external_type_specification]
#[verifier::external_body]
pub struct ExRegexError(fancy_regex::Error);

/// Why a text was not rewritten.
#[derive(Debug, Clone, Copy, PartialEq, Eq, Structural)]
pub enum RewriteError {
    /// The expression was refused, or the search for it was given up.
    Expression,
}

/// `text` with every match of the regular expression `pattern`, taken from
/// left to right and without overlap, replaced by `replacement`, as the
/// crate `fancy_regex` finds them; `None` where it refuses the expression or
/// gives up the search.
pub uninterp spec fn regex_replace_all(
    pattern: Seq<char>,
    text: Seq<char>,
    replacement: Seq<char>,
) -> Option<Seq<char>>;

/// `fancy_regex::Regex::new` and, on the expression it gives,
/// `fancy_regex::Regex::try_replacen` without a limit: the text with every
/// match replaced, or the error of either.
#[verifier::external_body]
fn replace_all(pattern: &str, text: &str, replacement: &str) -> (res: Result<
    String,
    fancy_regex::Error,
>)
    ensures
        match res {
            Ok(rewritten) => regex_replace_all(pattern@, text@, replacement@) == Some(rewritten@),
            Err(_) => regex_replace_all(pattern@, text@, replacement@) is None,
        },
{
    let expression = fancy_regex::Regex::new(pattern)?;
    let rewritten = expression.try_replacen(text, 0, replacement)?;
    Ok(rewritten.into_owned())
}

/// `input` with every Boguscoin address replaced by [`TONY_ADDRESS`].
pub fn rewrite_boguscoin_address(input: &str) -> (res: Result<String, RewriteError>)
    ensures
        match res {
            Ok(rewritten) => regex_replace_all(BOGUSCOIN_ADDRESS@, input@, TONY_ADDRESS@) == Some(
                rewritten@,
            ),
            Err(RewriteError::Expression) => regex_replace_all(
                BOGUSCOIN_ADDRESS@,
                input@,
                TONY_ADDRESS@,
            ) is None,
        },
{
    match replace_all(BOGUSCOIN_ADDRESS, input, TONY_ADDRESS) {
        Ok(rewritten) => Ok(rewritten),
        Err(_) => Err(RewriteError::Expression),
    }
}

} // verus!
