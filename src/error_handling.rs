use vstd::prelude::*;

verus! {

/// The kinds of failure, each with its own exit status.
#[derive(Debug, Clone, Copy, PartialEq, Eq, Structural)]
pub enum NogoErrorKind {
    IncorrectNumberOfArgs,
    IncorrectTypes,
    InvalidBoardDimensions,
    CantOpenFileForSaving,
    CantOpenFileForReading,
    ErrorReadingGameFile,
    EOFWaitingForUserInput,
    SystemIOError,
    ParsingError,
}

/// The exit status that goes with each kind of failure.
pub open spec fn status_of(kind: NogoErrorKind) -> i32 {
    match kind {
        NogoErrorKind::IncorrectNumberOfArgs => 1,
        NogoErrorKind::IncorrectTypes => 2,
        NogoErrorKind::InvalidBoardDimensions => 3,
        NogoErrorKind::CantOpenFileForReading => 4,
        NogoErrorKind::ErrorReadingGameFile => 5,
        NogoErrorKind::EOFWaitingForUserInput => 6,
        NogoErrorKind::CantOpenFileForSaving => 7,
        NogoErrorKind::SystemIOError => 8,
        NogoErrorKind::ParsingError => 9,
    }
}

/// The general message that goes with each kind of failure.
pub open spec fn general_of(kind: NogoErrorKind) -> &'static str {
    match kind {
        NogoErrorKind::IncorrectNumberOfArgs => "Program started with incorrect number of arguments",
        NogoErrorKind::IncorrectTypes => "Invalid type(s)",
        NogoErrorKind::InvalidBoardDimensions => "Invalid board dimension(s)",
        NogoErrorKind::CantOpenFileForReading => "Unable to open save file",
        NogoErrorKind::ErrorReadingGameFile => "Incorrect save file contents",
        NogoErrorKind::EOFWaitingForUserInput => "End of input from user",
        NogoErrorKind::CantOpenFileForSaving => "Unable to open new save file",
        NogoErrorKind::SystemIOError => "System IO error",
        NogoErrorKind::ParsingError => "Error while parsing value",
    }
}

/// A failure: its kind, exit status, general message and specific message.
#[derive(Debug)]
pub struct NogoError<'a> {
    kind: NogoErrorKind,
    status: i32,
    general: &'a str,
    specific: &'a str,
}

impl<'a> NogoError<'a> {
    pub closed spec fn spec_kind(&self) -> NogoErrorKind {
        self.kind
    }

    pub closed spec fn spec_status(&self) -> i32 {
        self.status
    }

    pub closed spec fn spec_general(&self) -> &'a str {
        self.general
    }

    pub closed spec fn spec_specific(&self) -> &'a str {
        self.specific
    }

    /// An error of `kind`, with its status and general message and an empty specific one.
    pub fn new(kind: NogoErrorKind) -> (r: Self)
        ensures
            r.spec_kind() == kind,
            r.spec_status() == status_of(kind),
            r.spec_general() == general_of(kind),
            r.spec_specific()@ == Seq::<char>::empty(),
    {
        let mut error = NogoError { kind: kind, status: 0, general: "", specific: "" };
        proof {
            reveal_strlit("");
        }
        match error.kind {
            NogoErrorKind::IncorrectNumberOfArgs => {
                error.status = 1;
                error.general = "Program started with incorrect number of arguments";
            },
            NogoErrorKind::IncorrectTypes => {
                error.status = 2;
                error.general = "Invalid type(s)";
            },
            NogoErrorKind::InvalidBoardDimensions => {
                error.status = 3;
                error.general = "Invalid board dimension(s)";
            },
            NogoErrorKind::CantOpenFileForReading => {
                error.status = 4;
                error.general = "Unable to open save file";
            },
            NogoErrorKind::ErrorReadingGameFile => {
                error.status = 5;
                error.general = "Incorrect save file contents";
            },
            NogoErrorKind::EOFWaitingForUserInput => {
                error.status = 6;
                error.general = "End of input from user";
            },
            NogoErrorKind::CantOpenFileForSaving => {
                error.status = 7;
                error.general = "Unable to open new save file";
            },
            NogoErrorKind::SystemIOError => {
                error.status = 8;
                error.general = "System IO error";
            },
            NogoErrorKind::ParsingError => {
                error.status = 9;
                error.general = "Error while parsing value";
            },
        }
        error
    }

    pub fn kind(&self) -> (r: &NogoErrorKind)
        ensures
            *r == self.spec_kind(),
    {
        &self.kind
    }

    pub fn status(&self) -> (r: i32)
        ensures
            r == self.spec_status(),
    {
        self.status
    }

    pub fn general(&self) -> (r: &'a str)
        ensures
            r == self.spec_general(),
    {
        &self.general
    }

    pub fn specific(&self) -> (r: &'a str)
        ensures
            r == self.spec_specific(),
    {
        &self.specific
    }

    /// Replaces the specific message.
    pub fn set_specific(&mut self, msg: &'a str)
        ensures
            final(self).spec_kind() == old(self).spec_kind(),
            final(self).spec_status() == old(self).spec_status(),
            final(self).spec_general() == old(self).spec_general(),
            final(self).spec_specific() == msg,
    {
        self.specific = msg;
    }
}

/// An error of `kind` with the specific message `specific`.
pub fn construct_error(specific: &str, kind: NogoErrorKind) -> (r: NogoError)
    ensures
        r.spec_kind() == kind,
        r.spec_status() == status_of(kind),
        r.spec_general() == general_of(kind),
        r.spec_specific() == specific,
{
    let mut err = NogoError::new(kind);
    err.set_specific(specific);
    err
}

} // verus!
