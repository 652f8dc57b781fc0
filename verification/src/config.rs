//! The settings of one run of the compiler.
use vstd::prelude::*;

use crate::text::{chars_of, replace, replace_all, to_string};

verus! {

/// What the command line asks for.
pub struct Config {
    /// The Qa source file.
    pub input: String,
    /// The name of the compiled binary.
    pub output: Option<String>,
    /// Print the C code that the program compiles to.
    pub verbose: bool,
    /// Keep the C file.
    pub keep_temp: bool,
    /// Run the binary once it is built.
    pub run: bool,
    /// Run the binary once it is built, then remove it.
    pub test: bool,
}

/// The name of the binary: the one asked for, else the input's name with each
/// `.qa` turned into `.exe` on Windows and removed elsewhere.
pub open spec fn output_name(input: Seq<char>, output: Option<Seq<char>>, windows: bool) -> Seq<
    char,
> {
    match output {
        Some(o) => o,
        None => if windows {
            replace_all(input, ".qa"@, ".exe"@)
        } else {
            replace_all(input, ".qa"@, Seq::empty())
        },
    }
}

impl Config {
    /// The name of the binary on a Windows host (`windows`) or another host.
    pub fn final_output(&self, windows: bool) -> (r: String)
        ensures
            r@ == output_name(self.input@, self.output.deep_view(), windows),
    {
        match &self.output {
            Some(o) => o.clone(),
            None => {
                proof {
                    reveal_strlit(".qa");
                }
                let input = chars_of(self.input.as_str());
                let name = if windows {
                    replace(&input, &chars_of(".qa"), &chars_of(".exe"))
                } else {
                    replace(&input, &chars_of(".qa"), &Vec::new())
                };
                to_string(&name)
            },
        }
    }
}

/// An output name that was asked for is the name of the binary, whatever the
/// platform.
pub proof fn law_requested_output_is_kept(input: Seq<char>, output: Seq<char>, windows: bool)
    ensures
        output_name(input, Some(output), windows) == output,
{
}

/// Off Windows, the binary of an input whose name has no `.qa` is named like
/// the input.
pub proof fn law_plain_input_names_binary(input: Seq<char>)
    requires
        !crate::text::has_sub(input, ".qa"@),
    ensures
        output_name(input, None, false) == input,
{
    crate::text::lemma_first_match(input, ".qa"@);
}

} // verus!
