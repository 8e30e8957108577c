use crate::text::{split, split_str, views};
use vstd::prelude::*;

verus! {

/// The raw answer of a server to one command: the server's name, its
/// welcome line and the lines of its output.
#[derive(Debug, PartialEq, Eq)]
pub struct OpenVpn<'a> {
    pub server: &'a str,
    pub welcome: &'a str,
    pub output: Vec<&'a str>,
}

/// The lines of an output whose lines end in a carriage return and a line
/// feed. An output that ends in a line end has an empty last line.
pub open spec fn output_lines(output: Seq<char>) -> Seq<Seq<char>> {
    split(output, seq!['\r', '\n'])
}

impl<'a> OpenVpn<'a> {
    /// The answer with the given name and welcome line, and the lines of
    /// `output`.
    pub fn _from_output(server: &'a str, welcome: &'a str, output: &'a str) -> (answer: OpenVpn<
        'a,
    >)
        ensures
            answer.server@ == server@,
            answer.welcome@ == welcome@,
            views(answer.output@) == output_lines(output@),
    {
        let line_end: [char; 2] = ['\r', '\n'];
        assert(line_end@ =~= seq!['\r', '\n']);
        OpenVpn { server, welcome, output: split_str(output, line_end.as_slice()) }
    }
}

} // verus!
