use vstd::prelude::*;

verus! {

/// The ways in which an operation of the broker can fail.
#[derive(Clone, Copy, Debug, PartialEq, Eq, Structural)]
pub enum Error {
    /// Opening, writing or syncing a persisted byte range failed.
    IoError,
    /// A frame was malformed, truncated or carried an unknown code.
    ProtocolError,
    /// The stream, topic or partition that was named does not exist.
    NotFound,
    /// An identifier or a name is already taken.
    AlreadyExists,
    /// A log ends in a record that is not whole.
    Corruption,
}

/// The status of a response that carries a result.
pub const STATUS_OK: u32 = 0;

/// The error that a status stands for, if it stands for one.
pub open spec fn error_of_status(status: u32) -> Option<Error> {
    if status == 1 {
        Some(Error::IoError)
    } else if status == 2 {
        Some(Error::ProtocolError)
    } else if status == 3 {
        Some(Error::NotFound)
    } else if status == 4 {
        Some(Error::AlreadyExists)
    } else if status == 5 {
        Some(Error::Corruption)
    } else {
        None
    }
}

impl Error {
    /// The status that stands for the error in a response: never `STATUS_OK`.
    pub open spec fn status(self) -> u32 {
        match self {
            Error::IoError => 1,
            Error::ProtocolError => 2,
            Error::NotFound => 3,
            Error::AlreadyExists => 4,
            Error::Corruption => 5,
        }
    }

    /// Every error is found again from its status.
    pub proof fn lemma_status_round_trip(self)
        ensures
            self.status() != STATUS_OK,
            error_of_status(self.status()) == Some(self),
    {
    }

    /// A status stands for at most one error, which has that status.
    pub proof fn lemma_status_unique(status: u32)
        requires
            error_of_status(status) is Some,
        ensures
            error_of_status(status).unwrap().status() == status,
    {
    }

    /// The status that stands for the error in a response.
    pub fn to_status(&self) -> (status: u32)
        ensures
            status == self.status(),
    {
        match self {
            Error::IoError => 1,
            Error::ProtocolError => 2,
            Error::NotFound => 3,
            Error::AlreadyExists => 4,
            Error::Corruption => 5,
        }
    }

    /// The error that a status stands for, if it stands for one.
    pub fn from_status(status: u32) -> (r: Option<Error>)
        ensures
            r == error_of_status(status),
    {
        if status == 1 {
            Some(Error::IoError)
        } else if status == 2 {
            Some(Error::ProtocolError)
        } else if status == 3 {
            Some(Error::NotFound)
        } else if status == 4 {
            Some(Error::AlreadyExists)
        } else if status == 5 {
            Some(Error::Corruption)
        } else {
            None
        }
    }

    /// What a response says of the error, in words.
    pub open spec fn message_spec(self) -> Seq<char> {
        match self {
            Error::IoError => "the byte store could not be written"@,
            Error::ProtocolError => "the frame is malformed"@,
            Error::NotFound => "no such stream, topic or partition"@,
            Error::AlreadyExists => "the identifier or the name is taken"@,
            Error::Corruption => "the log ends in a broken record"@,
        }
    }

    /// What a response says of the error, in words.
    pub fn message(&self) -> (text: String)
        ensures
            text@ == self.message_spec(),
    {
        match self {
            Error::IoError => "the byte store could not be written".to_owned(),
            Error::ProtocolError => "the frame is malformed".to_owned(),
            Error::NotFound => "no such stream, topic or partition".to_owned(),
            Error::AlreadyExists => "the identifier or the name is taken".to_owned(),
            Error::Corruption => "the log ends in a broken record".to_owned(),
        }
    }

    /// Every message is short enough to travel as a name does.
    pub proof fn lemma_message_fits(self)
        ensures
            crate::wire::name_fits(self.message_spec()),
    {
        reveal_strlit("the byte store could not be written");
        reveal_strlit("the frame is malformed");
        reveal_strlit("no such stream, topic or partition");
        reveal_strlit("the identifier or the name is taken");
        reveal_strlit("the log ends in a broken record");
        let text = self.message_spec();
        assert(vstd::utf8::is_ascii_chars(text));
        vstd::utf8::is_ascii_chars_encode_utf8(text);
    }
}

} // verus!
