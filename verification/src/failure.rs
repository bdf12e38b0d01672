//! What can go wrong in a run, what is said about it, and how far it reaches.

use vstd::prelude::*;
use crate::plan::ScaleError;

verus! {

/// How many arguments a run takes, the name of the program counted in: the
/// ratio, the input directory and the output directory follow it.
pub const ARGUMENT_COUNT: usize = 4;

/// A failure of the run or of the work on one image.
#[derive(Clone, Copy, Debug, PartialEq, Eq)]
pub enum Failure {
    /// An argument is missing.
    ArgumentCount,
    /// The ratio is not a number greater than zero and at most one.
    ArgumentRatio,
    /// The input directory cannot be read.
    DirectoryRead,
    /// An entry of the input directory cannot be read.
    DirectoryEntry,
    /// A file cannot be decoded.
    Decode,
    /// An image cannot be scaled.
    Scale(ScaleError),
    /// A result cannot be written.
    Write,
}

impl Failure {
    /// The failure ends the run. Any other ends the work on one image, and the
    /// run goes on.
    pub open spec fn fatal(self) -> bool {
        self is ArgumentCount || self is ArgumentRatio || self is DirectoryRead
            || self is DirectoryEntry
    }

    /// The line that reports the failure.
    pub open spec fn text(self) -> Seq<char> {
        match self {
            Failure::ArgumentCount => "[Error] Invalid number of arguments."@,
            Failure::ArgumentRatio => "[Error] The ratio must be a number above 0 and at most 1."@,
            Failure::DirectoryRead => "[Error] Could not read the directory."@,
            Failure::DirectoryEntry => "[Error] Error parsing entry."@,
            Failure::Decode => "[Error] The image cannot be decoded."@,
            Failure::Scale(ScaleError::Degenerate) => "[Error] The image is too small for the ratio."@,
            Failure::Scale(ScaleError::TooLarge) => "[Error] The image is too large."@,
            Failure::Write => "[Error] The system cannot find the output directory."@,
        }
    }

    /// Every report begins with the same mark.
    pub proof fn lemma_text_is_marked(self)
        ensures
            self.text().len() >= 7,
            self.text().subrange(0, 7) == "[Error]"@,
    {
        reveal_strlit("[Error]");
        reveal_strlit("[Error] Invalid number of arguments.");
        reveal_strlit("[Error] The ratio must be a number above 0 and at most 1.");
        reveal_strlit("[Error] Could not read the directory.");
        reveal_strlit("[Error] Error parsing entry.");
        reveal_strlit("[Error] The image cannot be decoded.");
        reveal_strlit("[Error] The image is too small for the ratio.");
        reveal_strlit("[Error] The image is too large.");
        reveal_strlit("[Error] The system cannot find the output directory.");
        assert(self.text().subrange(0, 7) =~= "[Error]"@);
    }

    /// Whether the failure ends the run.
    pub fn is_fatal(&self) -> (fatal: bool)
        ensures
            fatal == self.fatal(),
    {
        match self {
            Failure::ArgumentCount => true,
            Failure::ArgumentRatio => true,
            Failure::DirectoryRead => true,
            Failure::DirectoryEntry => true,
            Failure::Decode => false,
            Failure::Scale(_) => false,
            Failure::Write => false,
        }
    }

    /// The status that the failure gives the run: not zero if it ends the run,
    /// zero if the run goes on and ends in order.
    pub fn exit_status(&self) -> (status: u8)
        ensures
            status == if self.fatal() {
                1u8
            } else {
                0u8
            },
    {
        if self.is_fatal() {
            1
        } else {
            0
        }
    }

    /// The line that reports the failure.
    pub fn message(&self) -> (line: &'static str)
        ensures
            line@ == self.text(),
    {
        match self {
            Failure::ArgumentCount => "[Error] Invalid number of arguments.",
            Failure::ArgumentRatio => "[Error] The ratio must be a number above 0 and at most 1.",
            Failure::DirectoryRead => "[Error] Could not read the directory.",
            Failure::DirectoryEntry => "[Error] Error parsing entry.",
            Failure::Decode => "[Error] The image cannot be decoded.",
            Failure::Scale(ScaleError::Degenerate) => "[Error] The image is too small for the ratio.",
            Failure::Scale(ScaleError::TooLarge) => "[Error] The image is too large.",
            Failure::Write => "[Error] The system cannot find the output directory.",
        }
    }
}

/// Checks that no argument is missing.
pub fn check_argument_count(count: usize) -> (checked: Result<(), Failure>)
    ensures
        checked is Err <==> count < ARGUMENT_COUNT,
        checked matches Err(failure) ==> failure == Failure::ArgumentCount,
{
    if count < ARGUMENT_COUNT {
        Err(Failure::ArgumentCount)
    } else {
        Ok(())
    }
}

} // verus!
