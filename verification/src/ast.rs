//! The parsed form of a command line.
use vstd::prelude::*;

verus! {

/// How a redirection opens its target.
#[derive(Debug, Clone, Copy, PartialEq, Eq, Structural)]
pub enum RedirOp {
    /// `>`: truncate the file.
    Out,
    /// `>>`: append to the file.
    Append,
}

/// An output redirection: file descriptor, mode and target file.
#[derive(Debug)]
pub struct Redirection {
    /// 0 is stdin; 1 is stdout (the default for `>`); 2 is stderr.
    pub fd: u32,
    pub op: RedirOp,
    pub target: String,
}

impl View for Redirection {
    type V = (u32, RedirOp, Seq<char>);

    open spec fn view(&self) -> (u32, RedirOp, Seq<char>) {
        (self.fd, self.op, self.target@)
    }
}

/// A command name with its arguments, and its redirections in the order
/// in which they were written.
#[derive(Debug)]
pub struct SimpleCommand {
    pub argv: Vec<String>,
    pub redirs: Vec<Redirection>,
}

/// The view of a list of redirections.
pub open spec fn redirs_view(v: Seq<Redirection>) -> Seq<(u32, RedirOp, Seq<char>)> {
    v.map_values(|r: Redirection| r@)
}

impl View for SimpleCommand {
    type V = (Seq<Seq<char>>, Seq<(u32, RedirOp, Seq<char>)>);

    open spec fn view(&self) -> (Seq<Seq<char>>, Seq<(u32, RedirOp, Seq<char>)>) {
        (self.argv@.map_values(|s: String| s@), redirs_view(self.redirs@))
    }
}

} // verus!
